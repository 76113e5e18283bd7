//! The compiled circuit: a sequence of gates in topological order.
use vstd::prelude::*;
use crate::algebra::circuit::{positions_of, CircuitContext};
use crate::algebra::{BoolSemiring, CircuitSemiring, Field, Ring, Semiring};
use crate::circuit::amc::{
    amc1, amc_backprop_cancel_order, amc_value, amc_values, backward, can_accumulate, can_cancel,
    cancel_order_rule, leaves_defined,
};
use crate::circuit::backprop_laws::{lemma_bool_laws, lemma_can_cancel};
use crate::circuit::weights::{zip_weights, PosNegWeights, PosOnlyWeights};
use crate::circuit::{lit_var, literal_variable};

verus! {

/// A gate of a compiled circuit. The children of a gate are positions in the
/// circuit that holds it.
#[derive(Debug, PartialEq, Eq)]
pub enum Node {
    Or(Vec<usize>),
    And(Vec<usize>),
    Leaf(i32),
}

/// What a `Node` stands for: a disjunction or a conjunction of earlier gates,
/// or a literal.
pub enum Gate {
    Or(Seq<int>),
    And(Seq<int>),
    Leaf(i32),
}

/// The positions that a vector of children holds.
pub open spec fn positions(children: Seq<usize>) -> Seq<int> {
    children.map_values(|c: usize| c as int)
}

impl Gate {
    /// The children of a gate; a leaf has none.
    pub open spec fn children(self) -> Seq<int> {
        match self {
            Gate::Or(cs) => cs,
            Gate::And(cs) => cs,
            Gate::Leaf(_) => Seq::empty(),
        }
    }

    /// This gate with one more child at the end; a leaf has no children to extend.
    pub open spec fn with_child(self, child: int) -> Gate {
        match self {
            Gate::Or(cs) => Gate::Or(cs.push(child)),
            Gate::And(cs) => Gate::And(cs.push(child)),
            Gate::Leaf(l) => Gate::Leaf(l),
        }
    }
}

impl View for Node {
    type V = Gate;

    open spec fn view(&self) -> Gate {
        match self {
            Node::Or(cs) => Gate::Or(positions(cs@)),
            Node::And(cs) => Gate::And(positions(cs@)),
            Node::Leaf(l) => Gate::Leaf(*l),
        }
    }
}

impl Clone for Node {
    fn clone(&self) -> (r: Self)
        ensures
            r@ == self@,
    {
        match self {
            Node::Or(cs) => Node::Or(cs.clone()),
            Node::And(cs) => Node::And(cs.clone()),
            Node::Leaf(l) => Node::Leaf(*l),
        }
    }
}

impl Node {
    /// Appends a child to an `Or` or `And` gate.
    pub fn add_child(&mut self, child: usize)
        requires
            !(*old(self) is Leaf),
        ensures
            final(self)@ == old(self)@.with_child(child as int),
    {
        match self {
            Node::Or(children) => {
                children.push(child);
                assert(positions(children@.drop_last()) =~= old(self)@.children());
                assert(positions(children@) =~= positions(children@.drop_last()).push(child as int));
            },
            Node::And(children) => {
                children.push(child);
                assert(positions(children@.drop_last()) =~= old(self)@.children());
                assert(positions(children@) =~= positions(children@.drop_last()).push(child as int));
            },
            _ => {},
        }
    }
}

/// A circuit. Each gate comes after all of its children, and the last gate is the root.
pub struct Circuit {
    pub nodes: Vec<Node>,
}

/// The gates that a vector of nodes stands for.
pub open spec fn gates_of(nodes: Seq<Node>) -> Seq<Gate> {
    nodes.map_values(|n: Node| n@)
}

impl View for Circuit {
    type V = Seq<Gate>;

    open spec fn view(&self) -> Seq<Gate> {
        gates_of(self.nodes@)
    }
}

/// Every child of a gate has a smaller position than its parent.
pub open spec fn topological(gates: Seq<Gate>) -> bool {
    forall|i: int, k: int|
        0 <= i < gates.len() && 0 <= k < gates[i].children().len() ==> 0 <= (
        #[trigger] gates[i].children()[k]) < i
}

/// No literal has two leaves.
pub open spec fn leaves_shared(gates: Seq<Gate>) -> bool {
    forall|i: int, j: int|
        0 <= i < gates.len() && 0 <= j < gates.len() && gates[i] is Leaf && gates[i] == gates[j]
            ==> i == j
}

/// The largest variable among the leaves of the first `n` gates, 0 if there is no leaf.
pub open spec fn max_var(gates: Seq<Gate>, n: int) -> int
    decreases n,
{
    if n <= 0 {
        0
    } else {
        let rest = max_var(gates, n - 1);
        match gates[n - 1] {
            Gate::Leaf(l) => if lit_var(l as int) > rest {
                lit_var(l as int)
            } else {
                rest
            },
            _ => rest,
        }
    }
}

/// The largest of the values at some positions, 0 if there is none.
pub open spec fn max_at(values: Seq<nat>, children: Seq<int>) -> nat
    decreases children.len(),
{
    if children.len() == 0 {
        0
    } else {
        let rest = max_at(values, children.drop_last());
        if values[children.last()] > rest {
            values[children.last()]
        } else {
            rest
        }
    }
}

/// The depth of a gate, given the depths of the gates before it: a leaf has
/// depth 1, any other gate one more than its deepest child.
pub open spec fn gate_depth(gate: Gate, depths: Seq<nat>) -> nat {
    match gate {
        Gate::Leaf(_) => 1,
        _ => max_at(depths, gate.children()) + 1,
    }
}

/// The depths of the first `n` gates: the lengths of their longest paths to a leaf.
pub open spec fn depths_of(gates: Seq<Gate>, n: int) -> Seq<nat>
    decreases n,
{
    if n <= 0 {
        Seq::empty()
    } else {
        let before = depths_of(gates, n - 1);
        before.push(gate_depth(gates[n - 1], before))
    }
}

/// The largest of the first `n` numbers, 0 if there is none.
pub open spec fn max_of(s: Seq<nat>, n: int) -> nat
    decreases n,
{
    if n <= 0 {
        0
    } else if s[n - 1] > max_of(s, n - 1) {
        s[n - 1]
    } else {
        max_of(s, n - 1)
    }
}

/// How many of the first `n` numbers equal `d`.
pub open spec fn count_of(s: Seq<nat>, d: nat, n: int) -> nat
    decreases n,
{
    if n <= 0 {
        0
    } else if s[n - 1] == d {
        count_of(s, d, n - 1) + 1
    } else {
        count_of(s, d, n - 1)
    }
}

/// The largest number of children among the first `n` gates.
pub open spec fn max_fan_in(gates: Seq<Gate>, n: int) -> nat
    decreases n,
{
    if n <= 0 {
        0
    } else if gates[n - 1].children().len() > max_fan_in(gates, n - 1) {
        gates[n - 1].children().len()
    } else {
        max_fan_in(gates, n - 1)
    }
}

/// There are `n` depths of `n` gates, each at most the number of gates up to its own.
pub proof fn lemma_depths(gates: Seq<Gate>, n: int)
    requires
        0 <= n <= gates.len(),
        topological(gates),
    ensures
        depths_of(gates, n).len() == n,
        forall|i: int| 0 <= i < n ==> 1 <= #[trigger] depths_of(gates, n)[i] <= i + 1,
    decreases n,
{
    if n > 0 {
        lemma_depths(gates, n - 1);
        let before = depths_of(gates, n - 1);
        let cs = gates[n - 1].children();
        assert forall|k: int| 0 <= k < cs.len() implies 0 <= #[trigger] cs[k] < n - 1 by {
            assert(0 <= gates[n - 1].children()[k] < n - 1);
        }
        lemma_max_at(before, cs, n - 1);
    }
}

/// The depths of the first gates do not depend on the gates behind them.
pub proof fn lemma_depths_prefix(gates: Seq<Gate>, m: int, n: int)
    requires
        0 <= m <= n <= gates.len(),
        topological(gates),
    ensures
        depths_of(gates, m) == depths_of(gates, n).take(m),
    decreases n,
{
    lemma_depths(gates, n);
    if m == n {
        assert(depths_of(gates, n).take(n) =~= depths_of(gates, n));
    } else {
        lemma_depths_prefix(gates, m, n - 1);
        lemma_depths(gates, n - 1);
        assert(depths_of(gates, n).take(m) =~= depths_of(gates, n - 1).take(m));
    }
}

/// The largest of values that are at most `bound` is at most `bound`.
pub proof fn lemma_max_at(values: Seq<nat>, children: Seq<int>, bound: int)
    requires
        0 <= bound,
        forall|k: int| 0 <= k < children.len() ==> 0 <= #[trigger] children[k] < values.len(),
        forall|i: int| 0 <= i < values.len() ==> #[trigger] values[i] <= bound,
    ensures
        max_at(values, children) <= bound,
    decreases children.len(),
{
    if children.len() > 0 {
        lemma_max_at(values, children.drop_last(), bound);
        assert(0 <= children[children.len() - 1] < values.len());
    }
}

impl Circuit {
    /// The gates are in topological order.
    pub open spec fn wf(&self) -> bool {
        topological(self@)
    }

    /// Whether the gates are in topological order.
    pub fn is_well_formed(&self) -> (b: bool)
        ensures
            b == self.wf(),
    {
        let mut i: usize = 0;
        while i < self.nodes.len()
            invariant
                i <= self.nodes.len(),
                forall|j: int, k: int|
                    0 <= j < i && 0 <= k < self@[j].children().len() ==> 0 <= (
                    #[trigger] self@[j].children()[k]) < j,
            decreases self.nodes.len() - i,
        {
            let ordered = match &self.nodes[i] {
                Node::Or(children) => Self::all_below(children, i),
                Node::And(children) => Self::all_below(children, i),
                Node::Leaf(_) => true,
            };
            if !ordered {
                proof {
                    let cs = self@[i as int].children();
                    let k = choose|k: int| 0 <= k < cs.len() && !(cs[k] < i);
                    assert(!(0 <= self@[i as int].children()[k] < i));
                }
                return false;
            }
            i += 1;
        }
        true
    }

    /// Whether every child is a position before `bound`.
    fn all_below(children: &Vec<usize>, bound: usize) -> (b: bool)
        ensures
            b == forall|k: int| 0 <= k < children@.len() ==> (#[trigger] positions(children@)[k]) < bound,
    {
        let mut k: usize = 0;
        while k < children.len()
            invariant
                k <= children.len(),
                forall|j: int| 0 <= j < k ==> (#[trigger] positions(children@)[j]) < bound,
            decreases children.len() - k,
        {
            if children[k] >= bound {
                assert(positions(children@)[k as int] >= bound);
                return false;
            }
            k += 1;
        }
        true
    }

    pub fn nb_nodes(&self) -> (n: usize)
        ensures
            n == self@.len(),
    {
        self.nodes.len()
    }

    /// The largest variable that a leaf mentions, 0 if there is no leaf.
    pub fn nb_vars(&self) -> (n: u32)
        ensures
            n == max_var(self@, self@.len() as int),
    {
        let mut best: u32 = 0;
        let mut i: usize = 0;
        while i < self.nodes.len()
            invariant
                i <= self.nodes.len(),
                best == max_var(self@, i as int),
            decreases self.nodes.len() - i,
        {
            match &self.nodes[i] {
                Node::Leaf(l) => {
                    let v = literal_variable(*l);
                    if v > best {
                        best = v;
                    }
                },
                _ => {},
            }
            i += 1;
        }
        best
    }
}

impl Circuit {
    /// The depth of the circuit, and for each depth from 0 on the number of
    /// gates that have it. The depth of a gate is the length of its longest
    /// path down to a leaf, and that of a leaf is 1.
    pub fn depth_width(&self) -> (r: (usize, Vec<usize>))
        requires
            self.wf(),
            0 < self@.len() < usize::MAX,
        ensures
            r.0 == max_of(depths_of(self@, self@.len() as int), self@.len() as int),
            r.1@.len() == r.0 + 1,
            forall|d: int|
                0 <= d <= r.0 ==> (#[trigger] r.1@[d]) == count_of(
                    depths_of(self@, self@.len() as int),
                    d as nat,
                    self@.len() as int,
                ),
    {
        let n = self.nodes.len();
        let ghost all = depths_of(self@, n as int);
        proof {
            lemma_depths(self@, n as int);
        }
        let mut depths: Vec<usize> = Vec::new();
        let mut widths: Vec<usize> = Vec::new();
        let mut deepest: usize = 0;
        widths.push(0);
        let mut i: usize = 0;
        while i < n
            invariant
                i <= n,
                n == self.nodes@.len(),
                n < usize::MAX,
                self.wf(),
                all == depths_of(self@, n as int),
                all.len() == n,
                forall|k: int| 0 <= k < n ==> 1 <= #[trigger] all[k] <= k + 1,
                depths@.len() == i,
                forall|k: int| 0 <= k < i ==> (#[trigger] depths@[k]) == all[k],
                deepest == max_of(all, i as int),
                deepest <= i,
                widths@.len() == deepest + 1,
                forall|d: int|
                    0 <= d <= deepest ==> (#[trigger] widths@[d]) == count_of(all, d as nat, i as int),
            decreases n - i,
        {
            let ghost gate = self@[i as int];
            let ghost seen = Seq::new(depths@.len(), |k: int| depths@[k] as nat);
            proof {
                lemma_depths_prefix(self@, i as int, n as int);
                lemma_depths_prefix(self@, i + 1, n as int);
                assert(seen =~= depths_of(self@, i as int));
                assert(all[i as int] == depths_of(self@, i + 1)[i as int]);
            }
            let depth = match &self.nodes[i] {
                Node::Or(children) => {
                    assert forall|k: int| 0 <= k < children@.len() implies children@[k] < i by {
                        assert(gate.children()[k] == children@[k]);
                    }
                    Self::deepest_child(&depths, children, i) + 1
                },
                Node::And(children) => {
                    assert forall|k: int| 0 <= k < children@.len() implies children@[k] < i by {
                        assert(gate.children()[k] == children@[k]);
                    }
                    Self::deepest_child(&depths, children, i) + 1
                },
                Node::Leaf(_) => 1,
            };
            assert(depth == all[i as int]);
            depths.push(depth);
            proof {
                lemma_count_above_max(all, i as int);
            }
            while widths.len() <= depth
                invariant
                    depth <= i + 1,
                    i < n,
                    n < usize::MAX,
                    deepest + 1 <= widths@.len(),
                    widths@.len() <= depth + 1 || widths@.len() == deepest + 1,
                    forall|d: int|
                        0 <= d < widths@.len() ==> (#[trigger] widths@[d]) == count_of(
                            all,
                            d as nat,
                            i as int,
                        ),
                    forall|d: nat| d > deepest ==> #[trigger] count_of(all, d, i as int) == 0,
                decreases depth + 1 - widths.len(),
            {
                widths.push(0);
            }
            assert(count_of(all, depth as nat, i as int) <= i);
            let count = widths[depth] + 1;
            widths.set(depth, count);
            if depth > deepest {
                deepest = depth;
            }
            assert forall|d: int| 0 <= d <= deepest implies (#[trigger] widths@[d]) == count_of(
                all,
                d as nat,
                i + 1,
            ) by {
                if d != depth {
                    assert(count_of(all, d as nat, i + 1) == count_of(all, d as nat, i as int));
                }
            }
            i += 1;
        }
        (deepest, widths)
    }

    /// The depth of the deepest of some children, 0 if there is none.
    fn deepest_child(depths: &Vec<usize>, children: &Vec<usize>, bound: usize) -> (r: usize)
        requires
            forall|k: int| 0 <= k < children@.len() ==> children@[k] < depths@.len(),
            forall|k: int| 0 <= k < depths@.len() ==> depths@[k] <= bound,
        ensures
            r == max_at(Seq::new(depths@.len(), |k: int| depths@[k] as nat), positions(children@)),
            r <= bound,
    {
        let ghost values = Seq::new(depths@.len(), |k: int| depths@[k] as nat);
        let ghost cs = positions(children@);
        let mut best: usize = 0;
        let mut k: usize = 0;
        assert(cs.take(0) =~= Seq::<int>::empty());
        while k < children.len()
            invariant
                k <= children.len(),
                cs == positions(children@),
                values == Seq::new(depths@.len(), |k: int| depths@[k] as nat),
                forall|k: int| 0 <= k < children@.len() ==> children@[k] < depths@.len(),
                forall|k: int| 0 <= k < depths@.len() ==> depths@[k] <= bound,
                best == max_at(values, cs.take(k as int)),
                best <= bound,
            decreases children.len() - k,
        {
            assert(cs.take(k + 1).drop_last() =~= cs.take(k as int));
            let d = depths[children[k]];
            if d > best {
                best = d;
            }
            k += 1;
        }
        assert(cs.take(cs.len() as int) =~= cs);
        best
    }

    /// The largest number of children that a gate has.
    pub fn node_width(&self) -> (r: usize)
        requires
            self@.len() > 0,
        ensures
            r == max_fan_in(self@, self@.len() as int),
    {
        let mut best: usize = 0;
        let mut i: usize = 0;
        while i < self.nodes.len()
            invariant
                i <= self.nodes.len(),
                best == max_fan_in(self@, i as int),
            decreases self.nodes.len() - i,
        {
            let width = match &self.nodes[i] {
                Node::Or(children) => children.len(),
                Node::And(children) => children.len(),
                Node::Leaf(_) => 0,
            };
            if width > best {
                best = width;
            }
            i += 1;
        }
        best
    }
}

/// The truth values as elements of the Boolean semiring.
pub open spec fn bool_elements(values: Seq<bool>) -> Seq<BoolSemiring> {
    Seq::new(values.len(), |i: int| BoolSemiring(values[i]))
}

/// A table of `len` weights that are all zero.
pub open spec fn zeros<T: Semiring>(len: nat) -> Seq<T> {
    Seq::new(len, |i: int| T::zero_spec())
}

/// A table of `len` pairs of weights that are all zero.
pub open spec fn zero_pairs<T: Semiring>(len: nat) -> Seq<(T, T)> {
    Seq::new(len, |i: int| (T::zero_spec(), T::zero_spec()))
}

/// Wraps truth values as elements of the Boolean semiring.
fn wrap_bools(values: &Vec<bool>) -> (r: Vec<BoolSemiring>)
    ensures
        r@ == bool_elements(values@),
{
    let mut r: Vec<BoolSemiring> = Vec::new();
    let mut i: usize = 0;
    while i < values.len()
        invariant
            i <= values.len(),
            r@.len() == i,
            forall|k: int| 0 <= k < i ==> (#[trigger] r@[k]) == BoolSemiring(values@[k]),
        decreases values.len() - i,
    {
        r.push(BoolSemiring(values[i]));
        i += 1;
    }
    assert(r@ =~= bool_elements(values@));
    r
}

/// Unwraps elements of the Boolean semiring.
fn unwrap_bools(values: &Vec<BoolSemiring>) -> (r: Vec<bool>)
    ensures
        bool_elements(r@) == values@,
{
    let mut r: Vec<bool> = Vec::new();
    let mut i: usize = 0;
    while i < values.len()
        invariant
            i <= values.len(),
            r@.len() == i,
            forall|k: int| 0 <= k < i ==> (#[trigger] r@[k]) == values@[k].0,
        decreases values.len() - i,
    {
        r.push(values[i].0);
        i += 1;
    }
    assert(bool_elements(r@) =~= values@);
    r
}

impl Circuit {
    /// The value of the circuit under weights of the positive literals; a
    /// negative literal has the complement of its variable's weight.
    pub fn _amc<T: Ring>(&self, weights: Vec<T>) -> (r: T)
        requires
            self.wf(),
            self@.len() > 0,
            leaves_defined::<T, PosOnlyWeights<T>>(self@, weights@),
        ensures
            r == amc_value::<T, PosOnlyWeights<T>>(self@, weights@),
    {
        let weights: PosOnlyWeights<T> = PosOnlyWeights::from_vec(weights);
        amc1::<T, PosOnlyWeights<T>>(self, &weights)
    }

    /// The value of the circuit under weights of the positive and of the
    /// negative literals.
    pub fn _amc2<T: Ring>(&self, pos_weights: Vec<T>, neg_weights: Vec<T>) -> (r: T)
        requires
            self.wf(),
            self@.len() > 0,
            pos_weights@.len() == neg_weights@.len(),
        ensures
            r == amc_value::<T, PosNegWeights<T>>(self@, zip_weights(pos_weights@, neg_weights@)),
    {
        let weights: PosNegWeights<T> = PosNegWeights::from_vecs(pos_weights, neg_weights);
        amc1::<T, PosNegWeights<T>>(self, &weights)
    }

    /// The value of the circuit under weights of the positive literals, and
    /// its gradient in these weights.
    pub fn _amc_grad<T: Field>(&self, weights: Vec<T>) -> (r: (T, Vec<T>))
        requires
            self.wf(),
            self@.len() > 0,
            leaves_defined::<T, PosOnlyWeights<T>>(self@, weights@),
            can_cancel(
                self@,
                amc_values::<T, PosOnlyWeights<T>>(self@, weights@, self@.len() as int),
            ),
            can_accumulate::<T, PosOnlyWeights<T>>(self@, weights@.len()),
        ensures
            r.0 == amc_value::<T, PosOnlyWeights<T>>(self@, weights@),
            r.1@ == backward::<T, PosOnlyWeights<T>>(
                self@,
                cancel_order_rule(
                    self@,
                    amc_values::<T, PosOnlyWeights<T>>(self@, weights@, self@.len() as int),
                ),
                zeros::<T>(weights@.len()),
                0,
            ).1,
    {
        let mut grad_weights: PosOnlyWeights<T> = PosOnlyWeights::new(weights.len());
        let weights: PosOnlyWeights<T> = PosOnlyWeights::from_vec(weights);
        let result = amc_backprop_cancel_order::<T, PosOnlyWeights<T>, PosOnlyWeights<T>>(
            self,
            &weights,
            &mut grad_weights,
        );
        (result, grad_weights.into_vec())
    }

    /// The value of the circuit under weights of the positive and of the
    /// negative literals, and its gradient in the weights of each polarity.
    pub fn _amc_grad2<T: Field>(&self, pos_weights: Vec<T>, neg_weights: Vec<T>) -> (r: (
        T,
        Vec<T>,
        Vec<T>,
    ))
        requires
            self.wf(),
            self@.len() > 0,
            pos_weights@.len() == neg_weights@.len(),
            can_cancel(
                self@,
                amc_values::<T, PosNegWeights<T>>(
                    self@,
                    zip_weights(pos_weights@, neg_weights@),
                    self@.len() as int,
                ),
            ),
        ensures
            r.0 == amc_value::<T, PosNegWeights<T>>(self@, zip_weights(pos_weights@, neg_weights@)),
            r.1@.len() == r.2@.len(),
            zip_weights(r.1@, r.2@) == backward::<T, PosNegWeights<T>>(
                self@,
                cancel_order_rule(
                    self@,
                    amc_values::<T, PosNegWeights<T>>(
                        self@,
                        zip_weights(pos_weights@, neg_weights@),
                        self@.len() as int,
                    ),
                ),
                zero_pairs::<T>(pos_weights@.len()),
                0,
            ).1,
    {
        let mut grad_weights: PosNegWeights<T> = PosNegWeights::new(pos_weights.len());
        let weights: PosNegWeights<T> = PosNegWeights::from_vecs(pos_weights, neg_weights);
        let result = amc_backprop_cancel_order::<T, PosNegWeights<T>, PosNegWeights<T>>(
            self,
            &weights,
            &mut grad_weights,
        );
        let (pos_grad_weights, neg_grad_weights) = grad_weights.into_vecs();
        (result, pos_grad_weights, neg_grad_weights)
    }

    /// Whether the circuit is true under truth values of the literals, and
    /// its gradient in the Boolean semiring.
    pub fn _bool_grad(&self, pos_weights: Vec<bool>, neg_weights: Vec<bool>) -> (r: (
        bool,
        Vec<bool>,
        Vec<bool>,
    ))
        requires
            self.wf(),
            self@.len() > 0,
            pos_weights@.len() == neg_weights@.len(),
        ensures
            BoolSemiring(r.0) == amc_value::<BoolSemiring, PosNegWeights<BoolSemiring>>(
                self@,
                zip_weights(bool_elements(pos_weights@), bool_elements(neg_weights@)),
            ),
            r.1@.len() == r.2@.len(),
            zip_weights(bool_elements(r.1@), bool_elements(r.2@)) == backward::<
                BoolSemiring,
                PosNegWeights<BoolSemiring>,
            >(
                self@,
                cancel_order_rule(
                    self@,
                    amc_values::<BoolSemiring, PosNegWeights<BoolSemiring>>(
                        self@,
                        zip_weights(bool_elements(pos_weights@), bool_elements(neg_weights@)),
                        self@.len() as int,
                    ),
                ),
                zero_pairs::<BoolSemiring>(pos_weights@.len()),
                0,
            ).1,
    {
        let pos = wrap_bools(&pos_weights);
        let neg = wrap_bools(&neg_weights);
        proof {
            lemma_bool_laws();
            lemma_can_cancel::<BoolSemiring, PosNegWeights<BoolSemiring>>(
                self@,
                zip_weights(pos@, neg@),
            );
        }
        let (result, pos_grad, neg_grad) = self._amc_grad2::<BoolSemiring>(pos, neg);
        (result.0, unwrap_bools(&pos_grad), unwrap_bools(&neg_grad))
    }

    /// The model count: the value of the circuit in the integers, with
    /// every literal at the weight one.
    pub fn mc(&self) -> (r: i32)
        requires
            self.wf(),
            self@.len() > 0,
        ensures
            r == amc_value::<i32, PosOnlyWeights<i32>>(self@, Seq::empty()),
    {
        self._amc::<i32>(Vec::new())
    }
}

/// The gates that every transformed circuit begins with: the constant zero,
/// the constant one, and for each variable from 1 to `nb_vars` its
/// positive and its negative literal.
pub open spec fn literal_gates(nb_vars: int) -> Seq<Gate> {
    Seq::new(
        (2 + 2 * nb_vars) as nat,
        |i: int|
            if i == 0 {
                Gate::Or(Seq::empty())
            } else if i == 1 {
                Gate::And(Seq::empty())
            } else if i % 2 == 0 {
                Gate::Leaf((i / 2) as i32)
            } else {
                Gate::Leaf((-(i / 2)) as i32)
            },
    )
}

/// The place of a literal among the gates that a transformed circuit begins
/// with; that of the constant one where it is not among them.
pub open spec fn leaf_handle(lit: i32, nb_vars: int) -> int {
    if lit == 0 || lit_var(lit as int) > nb_vars {
        1
    } else if lit > 0 {
        2 * lit
    } else {
        2 * (-lit) + 1
    }
}

/// The places of some children, given the place of each gate.
pub open spec fn handles_at(handles: Seq<int>, children: Seq<int>) -> Seq<int> {
    Seq::new(children.len(), |k: int| handles[children[k]])
}

/// A circuit while it is transformed: the gates so far, and for each gate of
/// the circuit that was given the place of what stands for it.
pub struct Transformed {
    pub nodes: Seq<Gate>,
    pub handles: Seq<int>,
}

/// The transformation of the first `n` gates. A leaf stands for its literal
/// among the first gates. A disjunction or conjunction without children
/// stands for the constant zero or one; any other is appended, with the
/// places of its children as its children.
pub open spec fn transformed(gates: Seq<Gate>, nb_vars: int, n: int) -> Transformed
    decreases n,
{
    if n <= 0 {
        Transformed { nodes: literal_gates(nb_vars), handles: Seq::empty() }
    } else {
        let before = transformed(gates, nb_vars, n - 1);
        match gates[n - 1] {
            Gate::Leaf(l) => Transformed {
                nodes: before.nodes,
                handles: before.handles.push(leaf_handle(l, nb_vars)),
            },
            Gate::Or(cs) => if cs.len() == 0 {
                Transformed { nodes: before.nodes, handles: before.handles.push(0) }
            } else {
                Transformed {
                    nodes: before.nodes.push(Gate::Or(handles_at(before.handles, cs))),
                    handles: before.handles.push(before.nodes.len() as int),
                }
            },
            Gate::And(cs) => if cs.len() == 0 {
                Transformed { nodes: before.nodes, handles: before.handles.push(1) }
            } else {
                Transformed {
                    nodes: before.nodes.push(Gate::And(handles_at(before.handles, cs))),
                    handles: before.handles.push(before.nodes.len() as int),
                }
            },
        }
    }
}

/// No leaf of the first `n` gates holds the least 32-bit integer.
pub open spec fn leaves_negatable(gates: Seq<Gate>) -> bool {
    forall|i: int| 0 <= i < gates.len() ==> (#[trigger] gates[i]) != Gate::Leaf(i32::MIN)
}

/// The variable of every leaf is at most the largest variable.
pub proof fn lemma_max_var_bounds(gates: Seq<Gate>, n: int, i: int)
    requires
        0 <= i < n <= gates.len(),
    ensures
        0 <= max_var(gates, n),
        gates[i] matches Gate::Leaf(l) ==> lit_var(l as int) <= max_var(gates, n),
    decreases n,
{
    lemma_max_var_nonnegative(gates, n);
    if i < n - 1 {
        lemma_max_var_bounds(gates, n - 1, i);
    }
}

/// The largest variable is not negative.
pub proof fn lemma_max_var_nonnegative(gates: Seq<Gate>, n: int)
    ensures
        0 <= max_var(gates, n),
    decreases n,
{
    if n > 0 {
        lemma_max_var_nonnegative(gates, n - 1);
    }
}

impl Circuit {
    /// The gates that a transformed circuit begins with.
    fn literal_nodes(nb_vars: u32) -> (nodes: Vec<Node>)
        requires
            nb_vars <= i32::MAX,
        ensures
            gates_of(nodes@) == literal_gates(nb_vars as int),
    {
        let mut nodes: Vec<Node> = Vec::new();
        nodes.push(Node::Or(Vec::new()));
        nodes.push(Node::And(Vec::new()));
        let ghost want = literal_gates(nb_vars as int);
        assert(gates_of(nodes@)[0] == want[0]) by {
            assert(gates_of(nodes@)[0]->Or_0 =~= Seq::<int>::empty());
        }
        assert(gates_of(nodes@)[1] == want[1]) by {
            assert(gates_of(nodes@)[1]->And_0 =~= Seq::<int>::empty());
        }
        let mut i: u32 = 1;
        while i <= nb_vars
            invariant
                1 <= i <= nb_vars + 1,
                nb_vars <= i32::MAX,
                want == literal_gates(nb_vars as int),
                nodes@.len() == 2 * i,
                forall|k: int| 0 <= k < nodes@.len() ==> (#[trigger] gates_of(nodes@)[k]) == want[k],
            decreases nb_vars + 1 - i,
        {
            let ghost before = gates_of(nodes@);
            nodes.push(Node::Leaf(i as i32));
            nodes.push(Node::Leaf(-(i as i32)));
            assert forall|k: int| 0 <= k < nodes@.len() implies (#[trigger] gates_of(nodes@)[k])
                == want[k] by {
                if k < 2 * i {
                    assert(gates_of(nodes@)[k] == before[k]);
                }
            }
            i += 1;
        }
        assert(gates_of(nodes@) =~= want);
        nodes
    }

    /// The circuit as a circuit over its own literals: the constants zero
    /// and one, the two literals of each variable, and then the gates of
    /// this circuit that have children, each over the places of its children.
    pub fn circuit_transform(&self) -> (r: Circuit)
        requires
            self.wf(),
            leaves_negatable(self@),
        ensures
            r@ == transformed(
                self@,
                max_var(self@, self@.len() as int),
                self@.len() as int,
            ).nodes,
            r.wf(),
    {
        let nb_vars = self.nb_vars();
        let ghost vars = nb_vars as int;
        let n = self.nodes.len();
        proof {
            if n > 0 {
                lemma_max_var_bounds(self@, n as int, 0);
            }
            assert(nb_vars <= i32::MAX) by {
                if nb_vars > i32::MAX {
                    lemma_max_var_reached(self@, n as int);
                }
            }
        }
        let mut context = CircuitContext::new(0, Self::literal_nodes(nb_vars));
        let mut handles: Vec<CircuitSemiring> = Vec::new();
        let mut i: usize = 0;
        assert(positions_of(handles@) =~= Seq::<int>::empty());
        proof {
            lemma_literal_gates_topological(vars);
        }
        while i < n
            invariant
                i <= n,
                n == self.nodes@.len(),
                self.wf(),
                leaves_negatable(self@),
                vars == max_var(self@, n as int),
                0 <= vars <= i32::MAX,
                context.id() == 0,
                context@ == transformed(self@, vars, i as int).nodes,
                positions_of(handles@) == transformed(self@, vars, i as int).handles,
                handles@.len() == i,
                context.accepts_all(handles@),
                context@.len() >= 2 + 2 * vars,
                forall|k: int| 0 <= k < i ==> (#[trigger] handles@[k]).ix < context@.len(),
                topological(context@),
            decreases n - i,
        {
            let ghost gate = self@[i as int];
            let ghost before = transformed(self@, vars, i as int);
            let ghost seen = positions_of(handles@);
            let handle = match &self.nodes[i] {
                Node::Leaf(lit) => {
                    proof {
                        lemma_max_var_bounds(self@, n as int, i as int);
                        assert(gate == Gate::Leaf(*lit));
                    }
                    let h = if *lit == 0 {
                        CircuitSemiring::one()
                    } else if *lit > 0 {
                        context.handle(2 * (*lit as usize))
                    } else {
                        context.handle(2 * ((-*lit) as usize) + 1)
                    };
                    assert(h.ix as int == leaf_handle(*lit, vars));
                    assert(transformed(self@, vars, i + 1).handles == before.handles.push(
                        leaf_handle(*lit, vars),
                    ));
                    h
                },
                Node::Or(children) => {
                    assert forall|k: int| 0 <= k < children@.len() implies children@[k] < i by {
                        assert(gate.children()[k] == children@[k]);
                    }
                    let items = Self::handles_of(&handles, children);
                    assert(positions_of(items@) =~= handles_at(before.handles, positions(children@)));
                    proof {
                        if children@.len() > 0 {
                            lemma_push_in_order(context@, Gate::Or(positions_of(items@)));
                        }
                    }
                    let h = context.sum(&items);
                    assert(gate == Gate::Or(positions(children@)));
                    assert(transformed(self@, vars, i + 1).handles == before.handles.push(
                        h.ix as int,
                    ));
                    h
                },
                Node::And(children) => {
                    assert forall|k: int| 0 <= k < children@.len() implies children@[k] < i by {
                        assert(gate.children()[k] == children@[k]);
                    }
                    let items = Self::handles_of(&handles, children);
                    assert(positions_of(items@) =~= handles_at(before.handles, positions(children@)));
                    proof {
                        if children@.len() > 0 {
                            lemma_push_in_order(context@, Gate::And(positions_of(items@)));
                        }
                    }
                    let h = context.product(&items);
                    assert(gate == Gate::And(positions(children@)));
                    assert(transformed(self@, vars, i + 1).handles == before.handles.push(
                        h.ix as int,
                    ));
                    h
                },
            };
            handles.push(handle);
            assert(positions_of(handles@) =~= seen.push(handle.ix as int));
            i += 1;
        }
        Circuit { nodes: context.into_nodes() }
    }

    /// The elements that stand for some children.
    fn handles_of(handles: &Vec<CircuitSemiring>, children: &Vec<usize>) -> (items: Vec<
        CircuitSemiring,
    >)
        requires
            forall|k: int| 0 <= k < children@.len() ==> children@[k] < handles@.len(),
        ensures
            items@.len() == children@.len(),
            forall|k: int| 0 <= k < children@.len() ==> (#[trigger] items@[k]) == handles@[children@[k] as int],
    {
        let mut items: Vec<CircuitSemiring> = Vec::new();
        let mut k: usize = 0;
        while k < children.len()
            invariant
                k <= children.len(),
                forall|k: int| 0 <= k < children@.len() ==> children@[k] < handles@.len(),
                items@.len() == k,
                forall|j: int| 0 <= j < k ==> (#[trigger] items@[j]) == handles@[children@[j] as int],
            decreases children.len() - k,
        {
            items.push(handles[children[k]]);
            k += 1;
        }
        items
    }
}

/// The gates that a transformed circuit begins with are in topological order.
pub proof fn lemma_literal_gates_topological(nb_vars: int)
    requires
        0 <= nb_vars,
    ensures
        topological(literal_gates(nb_vars)),
{
    let gates = literal_gates(nb_vars);
    assert forall|i: int, k: int|
        0 <= i < gates.len() && 0 <= k < gates[i].children().len() implies 0 <= (
    #[trigger] gates[i].children()[k]) < i by {}
}

/// One more gate whose children are earlier gates keeps the order.
pub proof fn lemma_push_in_order(gates: Seq<Gate>, gate: Gate)
    requires
        topological(gates),
        forall|k: int| 0 <= k < gate.children().len() ==> 0 <= (#[trigger] gate.children()[k])
            < gates.len(),
    ensures
        topological(gates.push(gate)),
{
    let next = gates.push(gate);
    assert forall|i: int, k: int|
        0 <= i < next.len() && 0 <= k < next[i].children().len() implies 0 <= (
    #[trigger] next[i].children()[k]) < i by {
        if i < gates.len() {
            assert(next[i] == gates[i]);
        }
    }
}

/// The largest variable is 0 or the variable of a leaf.
pub proof fn lemma_max_var_reached(gates: Seq<Gate>, n: int)
    requires
        0 <= n <= gates.len(),
    ensures
        max_var(gates, n) == 0 || exists|i: int|
            0 <= i < n && (#[trigger] gates[i]) is Leaf && lit_var(gates[i]->Leaf_0 as int)
                == max_var(gates, n),
    decreases n,
{
    if n > 0 {
        lemma_max_var_reached(gates, n - 1);
        let rest = max_var(gates, n - 1);
        if max_var(gates, n) != rest {
            assert(gates[n - 1] is Leaf);
        } else if rest != 0 {
            let i = choose|i: int|
                0 <= i < n - 1 && (#[trigger] gates[i]) is Leaf && lit_var(gates[i]->Leaf_0 as int)
                    == rest;
            assert(gates[i] is Leaf);
        }
    }
}

/// No number above the largest of the first `n` occurs among them, and no
/// number occurs more than `n` times.
pub proof fn lemma_count_above_max(s: Seq<nat>, n: int)
    requires
        0 <= n,
    ensures
        forall|d: nat| d > max_of(s, n) ==> #[trigger] count_of(s, d, n) == 0,
        forall|d: nat| #[trigger] count_of(s, d, n) <= n,
    decreases n,
{
    if n > 0 {
        lemma_count_above_max(s, n - 1);
        assert forall|d: nat| d > max_of(s, n) implies #[trigger] count_of(s, d, n) == 0 by {
            assert(count_of(s, d, n - 1) == 0);
        }
        assert forall|d: nat| #[trigger] count_of(s, d, n) <= n by {
            assert(count_of(s, d, n - 1) <= n - 1);
        }
    }
}

} // verus!
