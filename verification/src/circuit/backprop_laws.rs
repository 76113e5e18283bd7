//! The rules of the backward pass agree where the semiring obeys the laws
//! that they rest on.
use vstd::prelude::*;
use crate::algebra::{BoolSemiring, Field, Semiring};
use crate::circuit::amc::{
    alg1_rule, alg1_updates, amc_values, apply_updates, backward, can_cancel, cancel_order_rule,
    cancel_order_updates, cancel_rule, cancel_updates, equal_count, last_equal, last_zero,
    lemma_alg1_rule_in_range, lemma_amc_values_at, lemma_backward_len,
    lemma_cancel_order_rule_in_range, lemma_cancel_rule_in_range, lemma_equal_count_grows,
    lemma_order_rule_in_range, lemma_zero_count_grows, naive_rule, naive_updates, order_rest,
    order_rule, order_updates, product_at, product_except, product_from_end, product_nonzero,
    product_unequal, rule_in_range, zero_count,
};
use crate::circuit::circuit::{topological, Gate};
use crate::circuit::weights::Weights;

verus! {

/// The product of the semiring is commutative and associative, and one is
/// its neutral element.
#[verifier::opaque]
pub open spec fn product_laws<T: Semiring>() -> bool {
    &&& forall|x: T, y: T| #[trigger] x.mul_spec(y) == y.mul_spec(x)
    &&& forall|x: T, y: T, z: T| #[trigger] x.mul_spec(y).mul_spec(z) == x.mul_spec(y.mul_spec(z))
    &&& forall|x: T| #[trigger] T::one_spec().mul_spec(x) == x
}

/// Division undoes multiplication: where a product has an inverse, dividing
/// it by a factor gives the other factor.
#[verifier::opaque]
pub open spec fn division_law<T: Field>() -> bool {
    forall|x: T, y: T| #[trigger]
        x.mul_spec(y).has_inverse_spec() ==> x.mul_spec(y).div_spec(y) == x
}

/// Where a product has an inverse, it can be divided by a factor.
#[verifier::opaque]
pub open spec fn division_defined<T: Field>() -> bool {
    forall|x: T, y: T| #[trigger] x.mul_spec(y).has_inverse_spec() ==> x.mul_spec(y).div_defined(y)
}

/// No position occurs twice.
pub open spec fn distinct(children: Seq<int>) -> bool {
    forall|p: int, q: int| 0 <= p < q < children.len() ==> children[p] != children[q]
}

/// No conjunction has a child twice.
pub open spec fn distinct_children(gates: Seq<Gate>) -> bool {
    forall|i: int| 0 <= i < gates.len() && (#[trigger] gates[i]) is And ==> distinct(
        gates[i].children(),
    )
}

/// Two rules hand down the same from every conjunction.
pub open spec fn rules_agree<T: Semiring>(
    gates: Seq<Gate>,
    first: spec_fn(int) -> Seq<(int, T)>,
    second: spec_fn(int) -> Seq<(int, T)>,
) -> bool {
    forall|i: int, grads: Seq<T>, g: T|
        0 <= i < gates.len() && gates[i] is And && grads.len() == gates.len() ==> #[trigger] apply_updates(
            grads,
            first(i),
            g,
        ) == apply_updates(grads, second(i), g)
}

/// Two rules that hand down the same from every conjunction give the same
/// backward pass.
pub proof fn lemma_backward_agrees<T: Semiring, G: Weights<T>>(
    gates: Seq<Gate>,
    first: spec_fn(int) -> Seq<(int, T)>,
    second: spec_fn(int) -> Seq<(int, T)>,
    table: G::V,
    k: int,
)
    requires
        0 <= k <= gates.len(),
        topological(gates),
        rule_in_range(gates, first),
        rules_agree(gates, first, second),
    ensures
        backward::<T, G>(gates, first, table, k) == backward::<T, G>(gates, second, table, k),
    decreases gates.len() - k,
{
    if k < gates.len() {
        lemma_backward_agrees::<T, G>(gates, first, second, table, k + 1);
        lemma_backward_len::<T, G>(gates, first, table, k + 1);
    }
}

/// The product over two lists of positions, one after the other, is the
/// product of their products.
pub proof fn lemma_product_concat<T: Semiring>(values: Seq<T>, a: Seq<int>, b: Seq<int>)
    requires
        product_laws::<T>(),
    ensures
        product_at(values, a + b) == product_at(values, a).mul_spec(product_at(values, b)),
    decreases b.len(),
{
    reveal(product_laws);
    if b.len() == 0 {
        assert(a + b =~= a);
        let x = product_at(values, a);
        assert(T::one_spec().mul_spec(x) == x);
        assert(x.mul_spec(T::one_spec()) == T::one_spec().mul_spec(x));
    } else {
        lemma_product_concat(values, a, b.drop_last());
        assert((a + b).drop_last() =~= a + b.drop_last());
        let pa = product_at(values, a);
        let pb = product_at(values, b.drop_last());
        let v = values[b.last()];
        assert(pa.mul_spec(pb).mul_spec(v) == pa.mul_spec(pb.mul_spec(v)));
    }
}

/// The product of the children other than a position that is not among
/// them is the product of all of them.
pub proof fn lemma_product_except_absent<T: Semiring>(values: Seq<T>, children: Seq<int>, skip: int)
    requires
        forall|q: int| 0 <= q < children.len() ==> children[q] != skip,
    ensures
        product_except(values, children, skip) == product_at(values, children),
    decreases children.len(),
{
    if children.len() > 0 {
        lemma_product_except_absent(values, children.drop_last(), skip);
    }
}

/// Among distinct children, the product of the children other than the one
/// at `p` is the product over the positions before and behind `p`.
pub proof fn lemma_product_except_distinct<T: Semiring>(values: Seq<T>, children: Seq<int>, p: int)
    requires
        0 <= p < children.len(),
        distinct(children),
    ensures
        product_except(values, children, children[p]) == product_at(
            values,
            children.take(p) + children.skip(p + 1),
        ),
    decreases children.len(),
{
    let init = children.drop_last();
    let others = children.take(p) + children.skip(p + 1);
    if p == children.len() - 1 {
        assert(others =~= init);
        lemma_product_except_absent(values, init, children[p]);
    } else {
        lemma_product_except_distinct(values, init, p);
        assert(init[p] == children[p]);
        assert(others.drop_last() =~= init.take(p) + init.skip(p + 1));
        assert(others.last() == children.last());
    }
}

/// The product taken from the last child down to `p` is the product over
/// the positions from `p` on.
pub proof fn lemma_product_from_end<T: Semiring>(values: Seq<T>, children: Seq<int>, p: int)
    requires
        product_laws::<T>(),
        0 <= p <= children.len(),
    ensures
        product_from_end(values, children, p) == product_at(values, children.skip(p)),
    decreases children.len() - p,
{
    reveal(product_laws);
    if p < children.len() {
        lemma_product_from_end(values, children, p + 1);
        let rest = product_at(values, children.skip(p + 1));
        let v = values[children[p]];
        lemma_product_concat(values, seq![children[p]], children.skip(p + 1));
        assert(seq![children[p]] + children.skip(p + 1) =~= children.skip(p));
        assert(seq![children[p]].drop_last() =~= Seq::<int>::empty());
        assert(product_at(values, Seq::<int>::empty()) == T::one_spec());
        assert(product_at(values, seq![children[p]].drop_last()) == T::one_spec());
        assert(seq![children[p]].last() == children[p]);
        assert(product_at(values, seq![children[p]]) == T::one_spec().mul_spec(v));
        assert(T::one_spec().mul_spec(v) == v);
        assert(rest.mul_spec(v) == v.mul_spec(rest));
    } else {
        assert(children.skip(p) =~= Seq::<int>::empty());
    }
}

/// Updates to distinct gradients: each gradient that an update speaks of
/// gets the product of that update, and every other gradient stays.
pub proof fn lemma_apply_updates_distinct<T: Semiring>(
    grads: Seq<T>,
    updates: Seq<(int, T)>,
    g: T,
)
    requires
        forall|k: int| 0 <= k < updates.len() ==> 0 <= (#[trigger] updates[k]).0 < grads.len(),
        forall|j: int, k: int| 0 <= j < k < updates.len() ==> updates[j].0 != updates[k].0,
    ensures
        apply_updates(grads, updates, g).len() == grads.len(),
        forall|k: int|
            0 <= k < updates.len() ==> apply_updates(grads, updates, g)[(#[trigger] updates[k]).0]
                == updates[k].1.mul_spec(g).add_spec(grads[updates[k].0]),
        forall|x: int|
            0 <= x < grads.len() && (forall|k: int| 0 <= k < updates.len() ==> (
            #[trigger] updates[k]).0 != x) ==> apply_updates(grads, updates, g)[x] == grads[x],
    decreases updates.len(),
{
    if updates.len() > 0 {
        let init = updates.drop_last();
        lemma_apply_updates_distinct(grads, init, g);
        let before = apply_updates(grads, init, g);
        let after = apply_updates(grads, updates, g);
        let (j, c) = updates.last();
        assert(updates[updates.len() - 1].0 == j);
        assert(before[j] == grads[j]) by {
            assert forall|k: int| 0 <= k < init.len() implies (#[trigger] init[k]).0 != j by {
                assert(init[k] == updates[k]);
            }
        }
        assert forall|k: int| 0 <= k < updates.len() implies after[(#[trigger] updates[k]).0]
            == updates[k].1.mul_spec(g).add_spec(grads[updates[k].0]) by {
            if k < init.len() {
                assert(init[k] == updates[k]);
                assert(updates[k].0 != j);
            }
        }
        assert forall|x: int|
            0 <= x < grads.len() && (forall|k: int| 0 <= k < updates.len() ==> (
            #[trigger] updates[k]).0 != x) implies after[x] == grads[x] by {
            assert(updates[updates.len() - 1].0 != x);
            assert forall|k: int| 0 <= k < init.len() implies (#[trigger] init[k]).0 != x by {
                assert(init[k] == updates[k]);
            }
        }
    }
}

/// From a conjunction with distinct children, the one-pass rule hands down
/// what the naive rule hands down.
pub proof fn lemma_alg1_step<T: Semiring>(
    grads: Seq<T>,
    values: Seq<T>,
    children: Seq<int>,
    g: T,
)
    requires
        product_laws::<T>(),
        distinct(children),
        forall|k: int| 0 <= k < children.len() ==> 0 <= #[trigger] children[k] < grads.len(),
    ensures
        apply_updates(grads, alg1_updates(values, children), g) == apply_updates(
            grads,
            naive_updates(values, children),
            g,
        ),
{
    let n = children.len() as int;
    let fast = alg1_updates(values, children);
    let slow = naive_updates(values, children);
    assert forall|p: int| 0 <= p < n implies fast[n - 1 - p] == (#[trigger] slow[p]) by {
        lemma_product_except_distinct(values, children, p);
        lemma_product_from_end(values, children, p + 1);
        lemma_product_concat(values, children.take(p), children.skip(p + 1));
    }
    lemma_apply_updates_distinct(grads, fast, g);
    lemma_apply_updates_distinct(grads, slow, g);
    let a = apply_updates(grads, fast, g);
    let b = apply_updates(grads, slow, g);
    assert forall|x: int| 0 <= x < grads.len() implies a[x] == b[x] by {
        if exists|p: int| 0 <= p < n && children[p] == x {
            let p = choose|p: int| 0 <= p < n && children[p] == x;
            assert(slow[p].0 == x);
            assert(fast[n - 1 - p].0 == x);
            assert(fast[n - 1 - p] == slow[p]);
        } else {
            assert forall|k: int| 0 <= k < fast.len() implies (#[trigger] fast[k]).0 != x by {
                assert(fast[k].0 == children[n - 1 - k]);
            }
            assert forall|k: int| 0 <= k < slow.len() implies (#[trigger] slow[k]).0 != x by {
                assert(slow[k].0 == children[k]);
            }
            assert(a[x] == grads[x]);
            assert(b[x] == grads[x]);
        }
    }
    assert(a =~= b);
}

/// The one-pass rule agrees with the naive rule. In a circuit in
/// topological order where no conjunction has a child twice, over a
/// semiring whose product is commutative and associative with one as its
/// neutral element, the backward pass by the one-pass rule gives the
/// gradients that the backward pass by the naive rule gives.
pub proof fn lemma_alg1_agrees_with_naive<T: Semiring, G: Weights<T>>(
    gates: Seq<Gate>,
    values: Seq<T>,
    table: G::V,
)
    requires
        topological(gates),
        distinct_children(gates),
        product_laws::<T>(),
    ensures
        backward::<T, G>(gates, alg1_rule(gates, values), table, 0) == backward::<T, G>(
            gates,
            naive_rule(gates, values),
            table,
            0,
        ),
{
    let fast = alg1_rule(gates, values);
    let slow = naive_rule(gates, values);
    lemma_alg1_rule_in_range(gates, values);
    assert forall|i: int, grads: Seq<T>, g: T|
        0 <= i < gates.len() && gates[i] is And && grads.len() == gates.len() implies #[trigger] apply_updates(
        grads,
        fast(i),
        g,
    ) == apply_updates(grads, slow(i), g) by {
        let cs = gates[i].children();
        assert forall|k: int| 0 <= k < cs.len() implies 0 <= #[trigger] cs[k] < grads.len() by {
            assert(0 <= gates[i].children()[k] < i);
        }
        lemma_alg1_step(grads, values, cs, g);
    }
    lemma_backward_agrees::<T, G>(gates, fast, slow, table, 0);
}

/// The product of all children is the product of the others times the
/// value of the child at `p`.
pub proof fn lemma_product_split<T: Semiring>(values: Seq<T>, children: Seq<int>, p: int)
    requires
        product_laws::<T>(),
        0 <= p < children.len(),
    ensures
        product_at(values, children) == product_at(
            values,
            children.take(p) + children.skip(p + 1),
        ).mul_spec(values[children[p]]),
{
    let before = children.take(p);
    let behind = children.skip(p + 1);
    let one = seq![children[p]];
    let a = product_at(values, before);
    let b = product_at(values, behind);
    let v = values[children[p]];
    assert(children =~= before + (one + behind));
    lemma_product_concat(values, before, one + behind);
    lemma_product_concat(values, one, behind);
    lemma_product_concat(values, before, behind);
    assert(product_at(values, one) == v) by {
        reveal(product_laws);
        assert(one.drop_last() =~= Seq::<int>::empty());
        assert(product_at(values, Seq::<int>::empty()) == T::one_spec());
        assert(product_at(values, one.drop_last()) == T::one_spec());
        assert(one.last() == children[p]);
        assert(T::one_spec().mul_spec(v) == v);
    }
    assert(a.mul_spec(v.mul_spec(b)) == a.mul_spec(b).mul_spec(v)) by {
        reveal(product_laws);
        assert(v.mul_spec(b) == b.mul_spec(v));
        assert(a.mul_spec(b).mul_spec(v) == a.mul_spec(b.mul_spec(v)));
    }
}

/// From a conjunction with distinct children whose value is the product of
/// theirs, the cancelling rule hands down what the naive rule hands down.
pub proof fn lemma_cancel_step<T: Field>(
    grads: Seq<T>,
    values: Seq<T>,
    children: Seq<int>,
    whole: T,
    g: T,
)
    requires
        product_laws::<T>(),
        division_law::<T>(),
        distinct(children),
        whole == product_at(values, children),
    ensures
        cancel_updates(values, children, whole) == naive_updates(values, children),
{
    let fast = cancel_updates(values, children, whole);
    let slow = naive_updates(values, children);
    assert forall|p: int| 0 <= p < children.len() implies fast[p] == slow[p] by {
        if whole.has_inverse_spec() {
            lemma_product_split(values, children, p);
            lemma_product_except_distinct(values, children, p);
            let others = product_at(values, children.take(p) + children.skip(p + 1));
            let v = values[children[p]];
            assert(others.mul_spec(v).div_spec(v) == others) by {
                reveal(division_law);
            }
        }
    }
    assert(fast =~= slow);
}

/// The cancelling rule agrees with the naive rule. In a circuit in
/// topological order where no conjunction has a child twice, over a field
/// whose product is commutative and associative with one as its neutral
/// element and whose division undoes its product, the backward pass by the
/// cancelling rule gives the gradients that the backward pass by the naive
/// rule gives.
pub proof fn lemma_cancel_agrees_with_naive<T: Field, W: Weights<T>, G: Weights<T>>(
    gates: Seq<Gate>,
    weights: W::V,
    table: G::V,
)
    requires
        topological(gates),
        distinct_children(gates),
        product_laws::<T>(),
        division_law::<T>(),
    ensures
        backward::<T, G>(
            gates,
            cancel_rule(gates, amc_values::<T, W>(gates, weights, gates.len() as int)),
            table,
            0,
        ) == backward::<T, G>(
            gates,
            naive_rule(gates, amc_values::<T, W>(gates, weights, gates.len() as int)),
            table,
            0,
        ),
{
    let values = amc_values::<T, W>(gates, weights, gates.len() as int);
    let fast = cancel_rule(gates, values);
    let slow = naive_rule(gates, values);
    lemma_cancel_rule_in_range(gates, values);
    assert forall|i: int, grads: Seq<T>, g: T|
        0 <= i < gates.len() && gates[i] is And && grads.len() == gates.len() implies #[trigger] apply_updates(
        grads,
        fast(i),
        g,
    ) == apply_updates(grads, slow(i), g) by {
        lemma_amc_values_at::<T, W>(gates, weights, i);
        lemma_cancel_step(grads, values, gates[i].children(), values[i], g);
    }
    lemma_backward_agrees::<T, G>(gates, fast, slow, table, 0);
}

/// Zero and one differ, zero absorbs in products and is neutral in sums, a
/// product is zero only if a factor is, and exactly the elements other than
/// zero have an inverse.
#[verifier::opaque]
pub open spec fn zero_laws<T: Semiring>() -> bool {
    &&& T::one_spec() != T::zero_spec()
    &&& forall|x: T| #[trigger] T::zero_spec().mul_spec(x) == T::zero_spec()
    &&& forall|x: T| #[trigger] T::zero_spec().add_spec(x) == x
    &&& forall|x: T, y: T| #[trigger]
        x.mul_spec(y) == T::zero_spec() ==> x == T::zero_spec() || y == T::zero_spec()
    &&& forall|x: T| #[trigger] x.has_inverse_spec() <==> x != T::zero_spec()
}

/// A product that is zero has a factor that is zero.
pub proof fn lemma_zero_product_has_zero<T: Semiring>(values: Seq<T>, children: Seq<int>)
    requires
        zero_laws::<T>(),
        product_at(values, children) == T::zero_spec(),
    ensures
        exists|q: int| 0 <= q < children.len() && values[#[trigger] children[q]] == T::zero_spec(),
    decreases children.len(),
{
    reveal(zero_laws);
    if children.len() > 0 {
        let init = children.drop_last();
        if values[children.last()] == T::zero_spec() {
            assert(values[children[children.len() - 1]] == T::zero_spec());
        } else {
            lemma_zero_product_has_zero(values, init);
            let q = choose|q: int| 0 <= q < init.len() && values[#[trigger] init[q]] == T::zero_spec();
            assert(values[children[q]] == T::zero_spec());
        }
    }
}

/// A product with a factor that is zero is zero.
pub proof fn lemma_product_with_zero<T: Semiring>(values: Seq<T>, children: Seq<int>, q: int)
    requires
        product_laws::<T>(),
        zero_laws::<T>(),
        0 <= q < children.len(),
        values[children[q]] == T::zero_spec(),
    ensures
        product_at(values, children) == T::zero_spec(),
{
    lemma_product_split(values, children, q);
    let others = product_at(values, children.take(q) + children.skip(q + 1));
    assert(others.mul_spec(T::zero_spec()) == T::zero_spec()) by {
        reveal(product_laws);
        reveal(zero_laws);
        assert(others.mul_spec(T::zero_spec()) == T::zero_spec().mul_spec(others));
    }
}

/// Where no child has the value zero, the product of the children that are
/// not zero is the product of all of them, and none is counted.
pub proof fn lemma_no_zero<T: Semiring>(values: Seq<T>, children: Seq<int>)
    requires
        forall|q: int| 0 <= q < children.len() ==> values[#[trigger] children[q]] != T::zero_spec(),
    ensures
        product_nonzero(values, children) == product_at(values, children),
        zero_count(values, children) == 0,
    decreases children.len(),
{
    if children.len() > 0 {
        let init = children.drop_last();
        assert forall|q: int| 0 <= q < init.len() implies values[#[trigger] init[q]]
            != T::zero_spec() by {
            assert(init[q] == children[q]);
        }
        lemma_no_zero(values, init);
        assert(values[children[children.len() - 1]] != T::zero_spec());
    }
}

/// Where exactly the child at `z` has the value zero: it is the last such
/// child, one child is counted, and the product of the children that are
/// not zero is the product of the others.
pub proof fn lemma_single_zero<T: Semiring>(values: Seq<T>, children: Seq<int>, z: int)
    requires
        0 <= z < children.len(),
        values[children[z]] == T::zero_spec(),
        forall|q: int|
            0 <= q < children.len() && q != z ==> values[#[trigger] children[q]] != T::zero_spec(),
    ensures
        last_zero(values, children) == children[z],
        zero_count(values, children) == 1,
        product_nonzero(values, children) == product_at(
            values,
            children.take(z) + children.skip(z + 1),
        ),
    decreases children.len(),
{
    let init = children.drop_last();
    let others = children.take(z) + children.skip(z + 1);
    if z == children.len() - 1 {
        assert(others =~= init);
        assert forall|q: int| 0 <= q < init.len() implies values[#[trigger] init[q]]
            != T::zero_spec() by {
            assert(init[q] == children[q]);
        }
        lemma_no_zero(values, init);
    } else {
        assert(values[children[children.len() - 1]] != T::zero_spec());
        assert(init[z] == children[z]);
        assert forall|q: int| 0 <= q < init.len() && q != z implies values[#[trigger] init[q]]
            != T::zero_spec() by {
            assert(init[q] == children[q]);
        }
        lemma_single_zero(values, init, z);
        assert(others.drop_last() =~= init.take(z) + init.skip(z + 1));
        assert(others.last() == children.last());
    }
}

/// Two children with the value zero are both counted.
pub proof fn lemma_two_zeros<T: Semiring>(values: Seq<T>, children: Seq<int>, y: int, z: int)
    requires
        0 <= y < z < children.len(),
        values[children[y]] == T::zero_spec(),
        values[children[z]] == T::zero_spec(),
    ensures
        zero_count(values, children) >= 2,
{
    let upto_y = children.take(y + 1);
    let upto_z = children.take(z + 1);
    lemma_zero_count_grows(values, children, z + 1);
    lemma_zero_count_grows(values, upto_z.drop_last(), y + 1);
    assert(upto_z.drop_last().take(y + 1) =~= upto_y);
    assert(upto_y.last() == children[y]);
    assert(upto_z.last() == children[z]);
    assert(zero_count(values, upto_y) >= 1);
}

/// From a conjunction with distinct children whose value is the product of
/// theirs, the rule that cancels or looks for a single zero hands down what
/// the naive rule hands down.
pub proof fn lemma_cancel_order_step<T: Field>(
    grads: Seq<T>,
    values: Seq<T>,
    children: Seq<int>,
    whole: T,
    g: T,
)
    requires
        product_laws::<T>(),
        division_law::<T>(),
        zero_laws::<T>(),
        distinct(children),
        forall|k: int| 0 <= k < children.len() ==> 0 <= #[trigger] children[k] < grads.len(),
        whole == product_at(values, children),
    ensures
        apply_updates(grads, cancel_order_updates(values, children, whole), g) == apply_updates(
            grads,
            naive_updates(values, children),
            g,
        ),
{
    let fast = cancel_order_updates(values, children, whole);
    let slow = naive_updates(values, children);
    if whole.has_inverse_spec() {
        lemma_cancel_step(grads, values, children, whole, g);
        assert(fast =~= cancel_updates(values, children, whole));
    } else {
        let zero = T::zero_spec();
        assert(whole == zero) by {
            reveal(zero_laws);
        }
        lemma_zero_product_has_zero(values, children);
        let z = choose|q: int| 0 <= q < children.len() && values[#[trigger] children[q]] == zero;
        lemma_apply_updates_distinct(grads, slow, g);
        let b = apply_updates(grads, slow, g);
        // Every child that is not the only zero gets zero from the naive rule.
        assert forall|p: int|
            0 <= p < children.len() && (exists|q: int|
                0 <= q < children.len() && q != p && values[#[trigger] children[q]] == zero) implies b[(
        #[trigger] children[p])] == grads[children[p]] by {
            let q = choose|q: int|
                0 <= q < children.len() && q != p && values[#[trigger] children[q]] == zero;
            let others = children.take(p) + children.skip(p + 1);
            lemma_product_except_distinct(values, children, p);
            let at = if q < p {
                q
            } else {
                q - 1
            };
            assert(others[at] == children[q]);
            lemma_product_with_zero(values, others, at);
            assert(slow[p].0 == children[p]);
            assert(slow[p].1 == zero);
            assert(zero.mul_spec(g).add_spec(grads[children[p]]) == grads[children[p]]) by {
                reveal(zero_laws);
            }
        }
        if exists|y: int| 0 <= y < children.len() && y != z && values[#[trigger] children[y]] == zero {
            let y = choose|y: int|
                0 <= y < children.len() && y != z && values[#[trigger] children[y]] == zero;
            if y < z {
                lemma_two_zeros(values, children, y, z);
            } else {
                lemma_two_zeros(values, children, z, y);
            }
            assert(fast =~= Seq::<(int, T)>::empty());
            assert forall|x: int| 0 <= x < grads.len() implies b[x] == grads[x] by {
                if exists|p: int| 0 <= p < children.len() && children[p] == x {
                    let p = choose|p: int| 0 <= p < children.len() && children[p] == x;
                    if p == z {
                        assert(values[children[y]] == zero);
                    } else {
                        assert(values[children[z]] == zero);
                    }
                    assert(b[children[p]] == grads[children[p]]);
                } else {
                    assert forall|k: int| 0 <= k < slow.len() implies (#[trigger] slow[k]).0 != x by {
                        assert(slow[k].0 == children[k]);
                    }
                }
            }
            assert(b =~= grads);
        } else {
            assert forall|q: int| 0 <= q < children.len() && q != z implies values[
            #[trigger] children[q]] != zero by {}
            lemma_single_zero(values, children, z);
            lemma_product_except_distinct(values, children, z);
            let only = (children[z], product_nonzero(values, children));
            assert(fast =~= seq![only]);
            assert(fast.drop_last() =~= Seq::<(int, T)>::empty());
            assert(fast.last() == only);
            let a = apply_updates(grads, fast, g);
            assert(apply_updates(grads, fast.drop_last(), g) == grads);
            assert(a == grads.update(children[z], only.1.mul_spec(g).add_spec(grads[children[z]])));
            assert(slow[z] == only);
            assert forall|x: int| 0 <= x < grads.len() implies a[x] == b[x] by {
                if x == children[z] {
                    assert(b[slow[z].0] == slow[z].1.mul_spec(g).add_spec(grads[slow[z].0]));
                } else if exists|p: int| 0 <= p < children.len() && children[p] == x {
                    let p = choose|p: int| 0 <= p < children.len() && children[p] == x;
                    assert(values[children[z]] == zero);
                    assert(b[children[p]] == grads[children[p]]);
                } else {
                    assert forall|k: int| 0 <= k < slow.len() implies (#[trigger] slow[k]).0 != x by {
                        assert(slow[k].0 == children[k]);
                    }
                    assert(b[x] == grads[x]);
                }
            }
            assert(a =~= b);
        }
    }
}

/// The rule that cancels or looks for a single zero agrees with the naive
/// rule. In a circuit in topological order where no conjunction has a child
/// twice, over a field that obeys the laws of the product, of division and
/// of zero, the backward pass by this rule gives the gradients that the
/// backward pass by the naive rule gives.
pub proof fn lemma_cancel_order_agrees_with_naive<T: Field, W: Weights<T>, G: Weights<T>>(
    gates: Seq<Gate>,
    weights: W::V,
    table: G::V,
)
    requires
        topological(gates),
        distinct_children(gates),
        product_laws::<T>(),
        division_law::<T>(),
        zero_laws::<T>(),
    ensures
        backward::<T, G>(
            gates,
            cancel_order_rule(gates, amc_values::<T, W>(gates, weights, gates.len() as int)),
            table,
            0,
        ) == backward::<T, G>(
            gates,
            naive_rule(gates, amc_values::<T, W>(gates, weights, gates.len() as int)),
            table,
            0,
        ),
{
    let values = amc_values::<T, W>(gates, weights, gates.len() as int);
    let fast = cancel_order_rule(gates, values);
    let slow = naive_rule(gates, values);
    lemma_cancel_order_rule_in_range(gates, values);
    assert forall|i: int, grads: Seq<T>, g: T|
        0 <= i < gates.len() && gates[i] is And && grads.len() == gates.len() implies #[trigger] apply_updates(
        grads,
        fast(i),
        g,
    ) == apply_updates(grads, slow(i), g) by {
        lemma_amc_values_at::<T, W>(gates, weights, i);
        let cs = gates[i].children();
        assert forall|k: int| 0 <= k < cs.len() implies 0 <= #[trigger] cs[k] < grads.len() by {
            assert(0 <= gates[i].children()[k] < i);
        }
        lemma_cancel_order_step(grads, values, cs, values[i], g);
    }
    lemma_backward_agrees::<T, G>(gates, fast, slow, table, 0);
}

/// The product picks one of its factors, and the product of an element with
/// itself is the element.
#[verifier::opaque]
pub open spec fn picking_laws<T: Semiring>() -> bool {
    &&& forall|x: T| #[trigger] x.mul_spec(x) == x
    &&& forall|x: T, y: T| #[trigger] x.mul_spec(y) == x || x.mul_spec(y) == y
}

/// Every conjunction has a child.
pub open spec fn no_empty_conjunction(gates: Seq<Gate>) -> bool {
    forall|i: int| 0 <= i < gates.len() && (#[trigger] gates[i]) is And ==> gates[i].children().len()
        > 0
}

/// Where the product picks one of its factors, the product of some
/// children is the value of one of them.
pub proof fn lemma_product_is_a_factor<T: Semiring>(values: Seq<T>, children: Seq<int>)
    requires
        product_laws::<T>(),
        picking_laws::<T>(),
        children.len() > 0,
    ensures
        exists|q: int|
            0 <= q < children.len() && values[#[trigger] children[q]] == product_at(values, children),
    decreases children.len(),
{
    let init = children.drop_last();
    let v = values[children.last()];
    if init.len() == 0 {
        reveal(product_laws);
        assert(product_at(values, init) == T::one_spec());
        assert(T::one_spec().mul_spec(v) == v);
        assert(values[children[children.len() - 1]] == product_at(values, children));
    } else {
        lemma_product_is_a_factor(values, init);
        let q = choose|q: int|
            0 <= q < init.len() && values[#[trigger] init[q]] == product_at(values, init);
        let a = product_at(values, init);
        assert(a.mul_spec(v) == a || a.mul_spec(v) == v) by {
            reveal(picking_laws);
        }
        if a.mul_spec(v) == a {
            assert(values[children[q]] == product_at(values, children));
        } else {
            assert(values[children[children.len() - 1]] == product_at(values, children));
        }
    }
}

/// Where the product of an element with itself is the element: a product
/// of some children, one of which has the value `whole`, is `whole` if its
/// product with one more value is `whole`.
pub proof fn lemma_product_absorbs<T: Semiring>(
    values: Seq<T>,
    others: Seq<int>,
    e: int,
    v: T,
    whole: T,
)
    requires
        product_laws::<T>(),
        picking_laws::<T>(),
        0 <= e < others.len(),
        values[others[e]] == whole,
        product_at(values, others).mul_spec(v) == whole,
    ensures
        product_at(values, others) == whole,
{
    lemma_product_split(values, others, e);
    let a = product_at(values, others);
    let b = product_at(values, others.take(e) + others.skip(e + 1));
    reveal(product_laws);
    reveal(picking_laws);
    assert(a == b.mul_spec(whole));
    assert(whole.mul_spec(a) == a) by {
        assert(whole.mul_spec(b.mul_spec(whole)) == b.mul_spec(whole).mul_spec(whole));
        assert(b.mul_spec(whole).mul_spec(whole) == b.mul_spec(whole.mul_spec(whole)));
        assert(whole.mul_spec(whole) == whole);
    }
    assert(whole.mul_spec(a) == whole) by {
        assert(a.mul_spec(v).mul_spec(a) == a.mul_spec(v.mul_spec(a)));
        assert(v.mul_spec(a) == a.mul_spec(v));
        assert(a.mul_spec(a.mul_spec(v)) == a.mul_spec(a).mul_spec(v));
        assert(a.mul_spec(a) == a);
    }
}

/// Where no child has the value `whole`, the product of the children with
/// another value is the product of all of them, and none is counted.
pub proof fn lemma_no_equal<T: Semiring>(values: Seq<T>, children: Seq<int>, whole: T)
    requires
        forall|q: int| 0 <= q < children.len() ==> values[#[trigger] children[q]] != whole,
    ensures
        product_unequal(values, children, whole) == product_at(values, children),
        equal_count(values, children, whole) == 0,
    decreases children.len(),
{
    if children.len() > 0 {
        let init = children.drop_last();
        assert forall|q: int| 0 <= q < init.len() implies values[#[trigger] init[q]] != whole by {
            assert(init[q] == children[q]);
        }
        lemma_no_equal(values, init, whole);
        assert(values[children[children.len() - 1]] != whole);
    }
}

/// Where exactly the child at `e` has the value `whole`: the search ends at
/// it, one child is counted, and the product of the children with another
/// value is the product of the others.
pub proof fn lemma_single_equal<T: Semiring>(values: Seq<T>, children: Seq<int>, whole: T, e: int)
    requires
        0 <= e < children.len(),
        values[children[e]] == whole,
        forall|q: int| 0 <= q < children.len() && q != e ==> values[#[trigger] children[q]] != whole,
    ensures
        last_equal(values, children, whole) == children[e],
        equal_count(values, children, whole) == 1,
        product_unequal(values, children, whole) == product_at(
            values,
            children.take(e) + children.skip(e + 1),
        ),
    decreases children.len(),
{
    let init = children.drop_last();
    let others = children.take(e) + children.skip(e + 1);
    if e == children.len() - 1 {
        assert(others =~= init);
        assert forall|q: int| 0 <= q < init.len() implies values[#[trigger] init[q]] != whole by {
            assert(init[q] == children[q]);
        }
        lemma_no_equal(values, init, whole);
    } else {
        assert(values[children[children.len() - 1]] != whole);
        assert(init[e] == children[e]);
        assert forall|q: int| 0 <= q < init.len() && q != e implies values[#[trigger] init[q]]
            != whole by {
            assert(init[q] == children[q]);
        }
        lemma_single_equal(values, init, whole, e);
        assert(others.drop_last() =~= init.take(e) + init.skip(e + 1));
        assert(others.last() == children.last());
    }
}

/// Two children with the value `whole` are both counted.
pub proof fn lemma_two_equal<T: Semiring>(
    values: Seq<T>,
    children: Seq<int>,
    whole: T,
    y: int,
    z: int,
)
    requires
        0 <= y < z < children.len(),
        values[children[y]] == whole,
        values[children[z]] == whole,
    ensures
        equal_count(values, children, whole) >= 2,
{
    let upto_y = children.take(y + 1);
    let upto_z = children.take(z + 1);
    lemma_equal_count_grows(values, children, whole, z + 1);
    lemma_equal_count_grows(values, upto_z.drop_last(), whole, y + 1);
    assert(upto_z.drop_last().take(y + 1) =~= upto_y);
    assert(upto_y.last() == children[y]);
    assert(upto_z.last() == children[z]);
    assert(equal_count(values, upto_y, whole) >= 1);
}

/// Where a child has the value `whole`, the search ends at such a child.
pub proof fn lemma_last_equal_is_equal<T: Semiring>(
    values: Seq<T>,
    children: Seq<int>,
    whole: T,
    q: int,
)
    requires
        0 <= q < children.len(),
        values[children[q]] == whole,
    ensures
        exists|c: int|
            0 <= c < children.len() && (#[trigger] children[c]) == last_equal(
                values,
                children,
                whole,
            ) && values[children[c]] == whole,
    decreases children.len(),
{
    let init = children.drop_last();
    if equal_count(values, init, whole) < 2 && values[children.last()] == whole {
        assert(children[children.len() - 1] == last_equal(values, children, whole));
    } else {
        if q == children.len() - 1 {
            // The last child has the value, so two earlier children have it too.
            lemma_equal_position(values, init, whole);
            let r = choose|r: int| 0 <= r < init.len() && values[#[trigger] init[r]] == whole;
            lemma_last_equal_is_equal(values, init, whole, r);
        } else {
            assert(init[q] == children[q]);
            lemma_last_equal_is_equal(values, init, whole, q);
        }
        let c = choose|c: int|
            0 <= c < init.len() && (#[trigger] init[c]) == last_equal(values, init, whole)
                && values[init[c]] == whole;
        assert(children[c] == last_equal(values, children, whole));
    }
}

/// Where a child is counted, a child has the value `whole`.
pub proof fn lemma_equal_position<T: Semiring>(values: Seq<T>, children: Seq<int>, whole: T)
    requires
        equal_count(values, children, whole) >= 1,
    ensures
        exists|r: int| 0 <= r < children.len() && values[#[trigger] children[r]] == whole,
    decreases children.len(),
{
    if values[children.last()] == whole {
        assert(values[children[children.len() - 1]] == whole);
    } else {
        let init = children.drop_last();
        lemma_equal_position(values, init, whole);
        let r = choose|r: int| 0 <= r < init.len() && values[#[trigger] init[r]] == whole;
        assert(values[children[r]] == whole);
    }
}

/// Among distinct children, the updates for the children other than the
/// one at `c` are those for the positions before and behind `c`.
pub proof fn lemma_order_rest_distinct<T: Semiring>(children: Seq<int>, c: int, whole: T)
    requires
        0 <= c < children.len(),
        distinct(children),
    ensures
        order_rest(children, children[c], whole) == Seq::new(
            (children.len() - 1) as nat,
            |k: int| ((children.take(c) + children.skip(c + 1))[k], whole),
        ),
    decreases children.len(),
{
    let init = children.drop_last();
    let others = children.take(c) + children.skip(c + 1);
    let want = Seq::new((children.len() - 1) as nat, |k: int| (others[k], whole));
    if c == children.len() - 1 {
        assert(others =~= init);
        lemma_order_rest_absent(init, children[c], whole);
        assert(order_rest(children, children[c], whole) =~= want);
    } else {
        lemma_order_rest_distinct(init, c, whole);
        assert(init[c] == children[c]);
        let init_others = init.take(c) + init.skip(c + 1);
        assert(others =~= init_others.push(children.last()));
        assert(order_rest(children, children[c], whole) =~= want);
    }
}

/// The updates for the children other than a position that is not among
/// them are updates for all of them.
pub proof fn lemma_order_rest_absent<T: Semiring>(children: Seq<int>, skip: int, whole: T)
    requires
        forall|q: int| 0 <= q < children.len() ==> children[q] != skip,
    ensures
        order_rest(children, skip, whole) == Seq::new(
            children.len(),
            |k: int| (children[k], whole),
        ),
    decreases children.len(),
{
    if children.len() > 0 {
        lemma_order_rest_absent(children.drop_last(), skip, whole);
        assert(order_rest(children, skip, whole) =~= Seq::new(
            children.len(),
            |k: int| (children[k], whole),
        ));
    } else {
        assert(order_rest(children, skip, whole) =~= Seq::new(
            children.len(),
            |k: int| (children[k], whole),
        ));
    }
}

/// From a conjunction with distinct children whose value is the product of
/// theirs, the rule of order hands down what the naive rule hands down.
pub proof fn lemma_order_step<T: Semiring>(
    grads: Seq<T>,
    values: Seq<T>,
    children: Seq<int>,
    whole: T,
    g: T,
)
    requires
        product_laws::<T>(),
        picking_laws::<T>(),
        distinct(children),
        children.len() > 0,
        forall|k: int| 0 <= k < children.len() ==> 0 <= #[trigger] children[k] < grads.len(),
        whole == product_at(values, children),
    ensures
        apply_updates(grads, order_updates(values, children, whole), g) == apply_updates(
            grads,
            naive_updates(values, children),
            g,
        ),
{
    let n = children.len() as int;
    let fast = order_updates(values, children, whole);
    let slow = naive_updates(values, children);
    lemma_product_is_a_factor(values, children);
    let q = choose|q: int| 0 <= q < n && values[#[trigger] children[q]] == whole;
    lemma_last_equal_is_equal(values, children, whole, q);
    let c = choose|c: int|
        0 <= c < n && (#[trigger] children[c]) == last_equal(values, children, whole)
            && values[children[c]] == whole;
    let others = children.take(c) + children.skip(c + 1);
    lemma_order_rest_distinct(children, c, whole);
    let rest = order_rest(children, children[c], whole);
    // Every child but the chosen one gets the value of the conjunction from the naive rule.
    assert forall|p: int| 0 <= p < n && p != c implies (#[trigger] slow[p]).1 == whole by {
        lemma_product_except_distinct(values, children, p);
        lemma_product_split(values, children, p);
        let without = children.take(p) + children.skip(p + 1);
        let at = if c < p {
            c
        } else {
            c - 1
        };
        assert(without[at] == children[c]);
        lemma_product_absorbs(values, without, at, values[children[p]], whole);
    }
    // The chosen child gets the same from both rules.
    assert(fast[0].1 == slow[c].1) by {
        lemma_product_except_distinct(values, children, c);
        if exists|y: int| 0 <= y < n && y != c && values[#[trigger] children[y]] == whole {
            let y = choose|y: int| 0 <= y < n && y != c && values[#[trigger] children[y]] == whole;
            if y < c {
                lemma_two_equal(values, children, whole, y, c);
            } else {
                lemma_two_equal(values, children, whole, c, y);
            }
            lemma_product_split(values, children, c);
            let at = if y < c {
                y
            } else {
                y - 1
            };
            assert(others[at] == children[y]);
            lemma_product_absorbs(values, others, at, values[children[c]], whole);
        } else {
            assert forall|y: int| 0 <= y < n && y != c implies values[#[trigger] children[y]]
                != whole by {}
            lemma_single_equal(values, children, whole, c);
        }
    }
    assert(fast =~= seq![fast[0]] + rest);
    assert(fast[0].0 == children[c]);
    assert forall|k: int| 0 <= k < fast.len() implies 0 <= (#[trigger] fast[k]).0 < grads.len() by {
        if k > 0 {
            assert(fast[k] == rest[k - 1]);
            assert(rest[k - 1].0 == others[k - 1]);
            if k - 1 < c {
                assert(others[k - 1] == children[k - 1]);
            } else {
                assert(others[k - 1] == children[k]);
            }
        }
    }
    assert forall|j: int, k: int| 0 <= j < k < fast.len() implies fast[j].0 != fast[k].0 by {
        assert(fast[k] == rest[k - 1]);
        let pk = if k - 1 < c {
            k - 1
        } else {
            k
        };
        assert(fast[k].0 == children[pk]);
        if j == 0 {
            assert(pk != c);
        } else {
            assert(fast[j] == rest[j - 1]);
            let pj = if j - 1 < c {
                j - 1
            } else {
                j
            };
            assert(fast[j].0 == children[pj]);
            assert(pj < pk);
        }
    }
    lemma_apply_updates_distinct(grads, fast, g);
    lemma_apply_updates_distinct(grads, slow, g);
    let a = apply_updates(grads, fast, g);
    let b = apply_updates(grads, slow, g);
    assert forall|x: int| 0 <= x < grads.len() implies a[x] == b[x] by {
        if exists|p: int| 0 <= p < n && children[p] == x {
            let p = choose|p: int| 0 <= p < n && children[p] == x;
            assert(slow[p].0 == x);
            if p == c {
                assert(fast[0].0 == x);
            } else {
                let k = if p < c {
                    p + 1
                } else {
                    p
                };
                assert(fast[k] == rest[k - 1]);
                assert(rest[k - 1].0 == others[k - 1]);
                assert(fast[k].0 == x);
                assert(fast[k].1 == whole);
            }
        } else {
            assert forall|k: int| 0 <= k < fast.len() implies (#[trigger] fast[k]).0 != x by {
                if k > 0 {
                    assert(fast[k] == rest[k - 1]);
                    assert(rest[k - 1].0 == others[k - 1]);
                    if k - 1 < c {
                        assert(others[k - 1] == children[k - 1]);
                    } else {
                        assert(others[k - 1] == children[k]);
                    }
                }
            }
            assert forall|k: int| 0 <= k < slow.len() implies (#[trigger] slow[k]).0 != x by {
                assert(slow[k].0 == children[k]);
            }
            assert(a[x] == grads[x]);
            assert(b[x] == grads[x]);
        }
    }
    assert(a =~= b);
}

/// The rule of order agrees with the naive rule. In a circuit in
/// topological order where every conjunction has children and none has a
/// child twice, over a semiring whose product is commutative and
/// associative with one as its neutral element and picks one of its
/// factors, the backward pass by the rule of order gives the gradients that
/// the backward pass by the naive rule gives.
pub proof fn lemma_order_agrees_with_naive<T: Semiring, W: Weights<T>, G: Weights<T>>(
    gates: Seq<Gate>,
    weights: W::V,
    table: G::V,
)
    requires
        topological(gates),
        distinct_children(gates),
        no_empty_conjunction(gates),
        product_laws::<T>(),
        picking_laws::<T>(),
    ensures
        backward::<T, G>(
            gates,
            order_rule(gates, amc_values::<T, W>(gates, weights, gates.len() as int)),
            table,
            0,
        ) == backward::<T, G>(
            gates,
            naive_rule(gates, amc_values::<T, W>(gates, weights, gates.len() as int)),
            table,
            0,
        ),
{
    let values = amc_values::<T, W>(gates, weights, gates.len() as int);
    let fast = order_rule(gates, values);
    let slow = naive_rule(gates, values);
    lemma_order_rule_in_range(gates, values);
    assert forall|i: int, grads: Seq<T>, g: T|
        0 <= i < gates.len() && gates[i] is And && grads.len() == gates.len() implies #[trigger] apply_updates(
        grads,
        fast(i),
        g,
    ) == apply_updates(grads, slow(i), g) by {
        lemma_amc_values_at::<T, W>(gates, weights, i);
        let cs = gates[i].children();
        assert forall|k: int| 0 <= k < cs.len() implies 0 <= #[trigger] cs[k] < grads.len() by {
            assert(0 <= gates[i].children()[k] < i);
        }
        lemma_order_step(grads, values, cs, values[i], g);
    }
    lemma_backward_agrees::<T, G>(gates, fast, slow, table, 0);
}

/// The cancelling rules can divide. In a circuit in topological order,
/// over a field whose product is commutative and associative with one as
/// its neutral element and where a product with an inverse can be divided
/// by a factor: where the value of a conjunction has an inverse, it can be
/// divided by the value of each child.
pub proof fn lemma_can_cancel<T: Field, W: Weights<T>>(gates: Seq<Gate>, weights: W::V)
    requires
        topological(gates),
        product_laws::<T>(),
        division_defined::<T>(),
    ensures
        can_cancel(gates, amc_values::<T, W>(gates, weights, gates.len() as int)),
{
    let values = amc_values::<T, W>(gates, weights, gates.len() as int);
    assert forall|i: int, k: int|
        0 <= i < gates.len() && gates[i] is And && values[i].has_inverse_spec() && 0 <= k
            < gates[i].children().len() implies values[i].div_defined(
        values[#[trigger] gates[i].children()[k]],
    ) by {
        let cs = gates[i].children();
        lemma_amc_values_at::<T, W>(gates, weights, i);
        lemma_product_split(values, cs, k);
        reveal(division_defined);
    }
}

/// The truth values obey the laws of the product, of division, of zero and
/// of picking.
pub proof fn lemma_bool_laws()
    ensures
        product_laws::<BoolSemiring>(),
        division_law::<BoolSemiring>(),
        zero_laws::<BoolSemiring>(),
        picking_laws::<BoolSemiring>(),
        division_defined::<BoolSemiring>(),
{
    reveal(division_defined);
    reveal(product_laws);
    reveal(division_law);
    reveal(zero_laws);
    reveal(picking_laws);
}

} // verus!
