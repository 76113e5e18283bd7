//! A transformed circuit has the values of the circuit that it was made of.
use vstd::prelude::*;
use crate::algebra::Semiring;
use crate::circuit::amc::{
    amc_value, amc_values, lemma_amc_values_at, lemma_amc_values_len,
    lemma_unknown_literal_is_one, product_at, sum_at,
};
use crate::circuit::circuit::{
    handles_at, leaf_handle, leaves_negatable, lemma_max_var_bounds, lemma_max_var_nonnegative,
    literal_gates, max_var, topological, transformed, Gate,
};
use crate::circuit::weights::Weights;

verus! {

/// What holds of a circuit while it is transformed: its gates are in
/// topological order and begin with the gates of the literals, and every
/// place is the place of a gate.
pub open spec fn transform_inv(gates: Seq<Gate>, nb_vars: int, n: int) -> bool {
    let t = transformed(gates, nb_vars, n);
    &&& topological(t.nodes)
    &&& t.handles.len() == n
    &&& t.nodes.len() >= 2 + 2 * nb_vars
    &&& t.nodes.take(2 + 2 * nb_vars) == literal_gates(nb_vars)
    &&& forall|i: int| 0 <= i < n ==> 0 <= #[trigger] t.handles[i] < t.nodes.len()
}

/// What holds of a circuit while it is transformed, and what was made of
/// the first gates stays when more gates are transformed.
pub proof fn lemma_transformed(gates: Seq<Gate>, nb_vars: int, k: int, n: int)
    requires
        topological(gates),
        0 <= nb_vars,
        0 <= k <= n <= gates.len(),
    ensures
        transform_inv(gates, nb_vars, n),
        transformed(gates, nb_vars, k).nodes.len() <= transformed(gates, nb_vars, n).nodes.len(),
        transformed(gates, nb_vars, n).nodes.take(
            transformed(gates, nb_vars, k).nodes.len() as int,
        ) == transformed(gates, nb_vars, k).nodes,
        transformed(gates, nb_vars, n).handles.take(k) == transformed(gates, nb_vars, k).handles,
    decreases n,
{
    let t = transformed(gates, nb_vars, n);
    if n == 0 {
        let lits = literal_gates(nb_vars);
        assert(lits.take(2 + 2 * nb_vars) =~= lits);
        assert forall|i: int, j: int|
            0 <= i < lits.len() && 0 <= j < lits[i].children().len() implies 0 <= (
        #[trigger] lits[i].children()[j]) < i by {}
        assert(t.nodes.take(t.nodes.len() as int) =~= t.nodes);
        assert(t.handles.take(0) =~= t.handles);
    } else {
        let before = transformed(gates, nb_vars, n - 1);
        if k < n {
            lemma_transformed(gates, nb_vars, k, n - 1);
        } else {
            lemma_transformed(gates, nb_vars, n - 1, n - 1);
        }
        let cs = gates[n - 1].children();
        let hs = handles_at(before.handles, cs);
        assert forall|j: int| 0 <= j < hs.len() implies 0 <= #[trigger] hs[j] < before.nodes.len() by {
            assert(0 <= gates[n - 1].children()[j] < n - 1);
            assert(0 <= before.handles[cs[j]] < before.nodes.len());
        }
        if t.nodes.len() > before.nodes.len() {
            let gate = t.nodes.last();
            assert(gate.children() == hs);
            crate::circuit::circuit::lemma_push_in_order(before.nodes, gate);
        }
        assert(t.nodes.take(before.nodes.len() as int) =~= before.nodes);
        assert(t.nodes.take(2 + 2 * nb_vars) =~= before.nodes.take(2 + 2 * nb_vars));
        assert(t.handles.take(n - 1) =~= before.handles);
        assert forall|i: int| 0 <= i < n implies 0 <= #[trigger] t.handles[i] < t.nodes.len() by {
            if i < n - 1 {
                assert(t.handles[i] == before.handles[i]);
            } else {
                match gates[n - 1] {
                    Gate::Leaf(l) => {
                        assert(0 <= leaf_handle(l, nb_vars) < 2 + 2 * nb_vars);
                    },
                    _ => {},
                }
            }
        }
        if k == n {
            assert(t.nodes.take(t.nodes.len() as int) =~= t.nodes);
            assert(t.handles.take(n) =~= t.handles);
        } else {
            let early = transformed(gates, nb_vars, k);
            assert(t.nodes.take(early.nodes.len() as int) =~= before.nodes.take(
                early.nodes.len() as int,
            ));
            assert(t.handles.take(k) =~= before.handles.take(k));
        }
    }
}

/// The sum over the places of some children is the sum over the children,
/// where each place has the value of its child.
pub proof fn lemma_sum_at_places<T: Semiring>(
    values: Seq<T>,
    placed: Seq<T>,
    handles: Seq<int>,
    children: Seq<int>,
)
    requires
        forall|j: int|
            0 <= j < children.len() ==> placed[handles[#[trigger] children[j]]] == values[children[j]],
    ensures
        sum_at(placed, handles_at(handles, children)) == sum_at(values, children),
    decreases children.len(),
{
    if children.len() > 0 {
        let init = children.drop_last();
        assert forall|j: int| 0 <= j < init.len() implies placed[handles[#[trigger] init[j]]]
            == values[init[j]] by {
            assert(init[j] == children[j]);
        }
        lemma_sum_at_places(values, placed, handles, init);
        assert(handles_at(handles, children).drop_last() =~= handles_at(handles, init));
        assert(placed[handles[children[children.len() - 1]]] == values[children[children.len()
            - 1]]);
    } else {
        assert(handles_at(handles, children) =~= Seq::<int>::empty());
    }
}

/// The product over the places of some children is the product over the
/// children, where each place has the value of its child.
pub proof fn lemma_product_at_places<T: Semiring>(
    values: Seq<T>,
    placed: Seq<T>,
    handles: Seq<int>,
    children: Seq<int>,
)
    requires
        forall|j: int|
            0 <= j < children.len() ==> placed[handles[#[trigger] children[j]]] == values[children[j]],
    ensures
        product_at(placed, handles_at(handles, children)) == product_at(values, children),
    decreases children.len(),
{
    if children.len() > 0 {
        let init = children.drop_last();
        assert forall|j: int| 0 <= j < init.len() implies placed[handles[#[trigger] init[j]]]
            == values[init[j]] by {
            assert(init[j] == children[j]);
        }
        lemma_product_at_places(values, placed, handles, init);
        assert(handles_at(handles, children).drop_last() =~= handles_at(handles, init));
        assert(placed[handles[children[children.len() - 1]]] == values[children[children.len()
            - 1]]);
    } else {
        assert(handles_at(handles, children) =~= Seq::<int>::empty());
    }
}

/// The transformed circuit has the values of the circuit: at the place of
/// each gate of the circuit stands a gate with the same value, whatever the
/// semiring and the weights.
pub proof fn lemma_transform_keeps_values<T: Semiring, W: Weights<T>>(
    gates: Seq<Gate>,
    weights: W::V,
    i: int,
)
    requires
        topological(gates),
        leaves_negatable(gates),
        0 <= i < gates.len(),
    ensures
        ({
            let t = transformed(gates, max_var(gates, gates.len() as int), gates.len() as int);
            amc_values::<T, W>(t.nodes, weights, t.nodes.len() as int)[t.handles[i]] == amc_values::<
                T,
                W,
            >(gates, weights, gates.len() as int)[i]
        }),
    decreases i,
{
    let n = gates.len() as int;
    let nb = max_var(gates, n);
    lemma_max_var_nonnegative(gates, n);
    let t = transformed(gates, nb, n);
    let values = amc_values::<T, W>(gates, weights, n);
    let placed = amc_values::<T, W>(t.nodes, weights, t.nodes.len() as int);
    lemma_transformed(gates, nb, i + 1, n);
    lemma_transformed(gates, nb, i, i + 1);
    lemma_amc_values_len::<T, W>(t.nodes, weights, t.nodes.len() as int);
    lemma_amc_values_at::<T, W>(gates, weights, i);
    let now = transformed(gates, nb, i + 1);
    let before = transformed(gates, nb, i);
    let h = t.handles[i];
    assert(h == now.handles[i]) by {
        assert(t.handles.take(i + 1)[i] == t.handles[i]);
    }
    lemma_amc_values_at::<T, W>(t.nodes, weights, h);
    let cs = gates[i].children();
    assert forall|j: int| 0 <= j < cs.len() implies placed[t.handles[#[trigger] cs[j]]]
        == values[cs[j]] by {
        assert(0 <= gates[i].children()[j] < i);
        lemma_transform_keeps_values::<T, W>(gates, weights, cs[j]);
    }
    assert(handles_at(before.handles, cs) =~= handles_at(t.handles, cs)) by {
        assert forall|j: int| 0 <= j < cs.len() implies before.handles[cs[j]] == t.handles[cs[j]] by {
            assert(0 <= gates[i].children()[j] < i);
            lemma_transformed(gates, nb, i, n);
            assert(t.handles.take(i)[cs[j]] == t.handles[cs[j]]);
        }
    }
    assert(t.nodes[h] == now.nodes[h]) by {
        assert(t.nodes.take(now.nodes.len() as int)[h] == t.nodes[h]);
    }
    match gates[i] {
        Gate::Leaf(l) => {
            lemma_max_var_bounds(gates, n, i);
            assert(gates[i] != Gate::Leaf(i32::MIN));
            let lits = literal_gates(nb);
            assert(t.nodes[h] == lits[h]) by {
                assert(t.nodes.take(2 + 2 * nb)[h] == t.nodes[h]);
            }
            if l == 0 {
                lemma_unknown_literal_is_one::<T, W>(weights, l);
                assert(lits[1]->And_0 =~= Seq::<int>::empty());
            } else {
                assert(lits[h] == Gate::Leaf(l));
            }
        },
        Gate::Or(_) => {
            if cs.len() == 0 {
                let lits = literal_gates(nb);
                assert(t.nodes[0] == lits[0]) by {
                    assert(t.nodes.take(2 + 2 * nb)[0] == t.nodes[0]);
                }
                assert(lits[0]->Or_0 =~= Seq::<int>::empty());
            } else {
                assert(now.nodes[h] == Gate::Or(handles_at(before.handles, cs)));
                lemma_sum_at_places(values, placed, t.handles, cs);
            }
        },
        Gate::And(_) => {
            if cs.len() == 0 {
                let lits = literal_gates(nb);
                assert(t.nodes[1] == lits[1]) by {
                    assert(t.nodes.take(2 + 2 * nb)[1] == t.nodes[1]);
                }
                assert(lits[1]->And_0 =~= Seq::<int>::empty());
            } else {
                assert(now.nodes[h] == Gate::And(handles_at(before.handles, cs)));
                lemma_product_at_places(values, placed, t.handles, cs);
            }
        },
    }
}

/// The transformed circuit has the value of the circuit, where the root of
/// the circuit has children.
pub proof fn lemma_transform_keeps_value<T: Semiring, W: Weights<T>>(
    gates: Seq<Gate>,
    weights: W::V,
)
    requires
        topological(gates),
        leaves_negatable(gates),
        gates.len() > 0,
        gates.last().children().len() > 0,
    ensures
        amc_value::<T, W>(
            transformed(gates, max_var(gates, gates.len() as int), gates.len() as int).nodes,
            weights,
        ) == amc_value::<T, W>(gates, weights),
{
    let n = gates.len() as int;
    let nb = max_var(gates, n);
    lemma_max_var_nonnegative(gates, n);
    let t = transformed(gates, nb, n);
    lemma_transform_keeps_values::<T, W>(gates, weights, n - 1);
    lemma_transformed(gates, nb, n - 1, n);
    lemma_amc_values_len::<T, W>(t.nodes, weights, t.nodes.len() as int);
    lemma_amc_values_len::<T, W>(gates, weights, n);
    let before = transformed(gates, nb, n - 1);
    assert(t.handles[n - 1] == t.nodes.len() - 1);
}

} // verus!
