//! Readers for the d-DNNF output of a knowledge compiler and for DIMACS CNF.
use std::collections::HashMap;
use std::rc::Rc;
use vstd::prelude::*;
use vstd::string::StringSliceAdditionalSpecFns;
use crate::circuit::circuit::{
    gates_of, leaves_shared, lemma_push_in_order, positions, topological, Circuit, Gate, Node,
};
use crate::circuit::rcircuit::{formulas_of, Formula, RCircuit, RNode};
use crate::circuit::text::{
    byte_seqs, index_value, lines, literal_value, parse_index, parse_literal, split_lines,
    tokenize, tokens,
};

verus! {

broadcast use vstd::std_specs::hash::group_hash_axioms;

/// Why a text could not be read.
#[derive(Debug, Clone, Copy, PartialEq, Eq, Structural)]
pub enum ParseError {
    /// The line with this number, counted from 0, is not of the format, or
    /// names a node that is not there.
    Malformed(usize),
    /// The text ends without a pending node 1, the root.
    MissingRoot,
    /// The text ends with introduced nodes that nothing refers to.
    DanglingNodes,
}

/// What has been read of a d-DNNF text so far.
pub struct D4State {
    /// The gates that have their final place.
    pub nodes: Seq<Gate>,
    /// For each index of the text, from 0 to the number of introductions: the
    /// place of its node, once it has one.
    pub slots: Seq<Option<int>>,
    /// The nodes that were introduced and have no place yet, by their index.
    pub pending: Map<usize, Gate>,
}

/// Nothing read yet.
pub open spec fn d4_start() -> D4State {
    D4State { nodes: Seq::empty(), slots: seq![None], pending: Map::empty() }
}

/// The first place of a leaf with this literal among the gates.
pub open spec fn leaf_position(gates: Seq<Gate>, lit: i32) -> Option<int>
    decreases gates.len(),
{
    if gates.len() == 0 {
        None
    } else {
        match leaf_position(gates.drop_last(), lit) {
            Some(p) => Some(p),
            None => if gates.last() == Gate::Leaf(lit) {
                Some(gates.len() - 1)
            } else {
                None
            },
        }
    }
}

/// An introduction: the node is pending, with no children, under its index.
pub open spec fn d4_introduce(st: D4State, conjunction: bool, index: usize) -> D4State {
    D4State {
        nodes: st.nodes,
        slots: st.slots.push(None),
        pending: st.pending.insert(
            index,
            if conjunction {
                Gate::And(Seq::empty())
            } else {
                Gate::Or(Seq::empty())
            },
        ),
    }
}

/// The place of the node with this index. A pending node gets the next place
/// and keeps it. `None` if the index is beyond the introductions or names no node.
pub open spec fn d4_place(st: D4State, index: usize) -> Option<(D4State, int)> {
    if index >= st.slots.len() {
        None
    } else {
        match st.slots[index as int] {
            Some(p) => Some((st, p)),
            None => if st.pending.contains_key(index) {
                Some(
                    (
                        D4State {
                            nodes: st.nodes.push(st.pending[index]),
                            slots: st.slots.update(index as int, Some(st.nodes.len() as int)),
                            pending: st.pending.remove(index),
                        },
                        st.nodes.len() as int,
                    ),
                )
            } else {
                None
            },
        }
    }
}

/// The places of the leaves of some literals, in their order. A literal that
/// has no leaf yet gets one at the end of the gates.
pub open spec fn d4_leaves(gates: Seq<Gate>, lits: Seq<i32>) -> (Seq<Gate>, Seq<int>)
    decreases lits.len(),
{
    if lits.len() == 0 {
        (gates, Seq::empty())
    } else {
        let (before, places) = d4_leaves(gates, lits.drop_last());
        match leaf_position(before, lits.last()) {
            Some(p) => (before, places.push(p)),
            None => (before.push(Gate::Leaf(lits.last())), places.push(before.len() as int)),
        }
    }
}

/// An edge from `parent` to `child` under the literals `lits`: the child gets
/// its place; with literals, a conjunction of their leaves and the child is
/// appended; the result becomes one more child of the pending parent.
pub open spec fn d4_edge(st: D4State, parent: usize, child: usize, lits: Seq<i32>) -> Option<
    D4State,
> {
    match d4_place(st, child) {
        None => None,
        Some((placed, child_place)) => {
            let (gates, places) = d4_leaves(placed.nodes, lits);
            let nodes = if lits.len() == 0 {
                placed.nodes
            } else {
                gates.push(Gate::And(places.push(child_place)))
            };
            let source = if lits.len() == 0 {
                child_place
            } else {
                gates.len() as int
            };
            if placed.pending.contains_key(parent) {
                Some(
                    D4State {
                        nodes,
                        slots: placed.slots,
                        pending: placed.pending.insert(
                            parent,
                            placed.pending[parent].with_child(source),
                        ),
                    },
                )
            } else {
                None
            }
        },
    }
}

/// The literals that the tokens of an edge give: those before the first
/// token `0`, each a 32-bit integer other than zero.
pub open spec fn edge_literals(toks: Seq<Seq<u8>>) -> Option<Seq<i32>>
    decreases toks.len(),
{
    if toks.len() == 0 || toks[0] == seq![48u8] {
        Some(Seq::empty())
    } else {
        match (literal_value(toks[0]), edge_literals(toks.skip(1))) {
            (Some(l), Some(rest)) => if l != 0 {
                Some(seq![l] + rest)
            } else {
                None
            },
            _ => None,
        }
    }
}

/// Whether a byte opens an introduction: `o`, `a`, `f` or `t`.
pub open spec fn opens_introduction(b: u8) -> bool {
    b == 111 || b == 97 || b == 102 || b == 116
}

/// Whether a byte introduces a conjunction: `a` or `t`.
pub open spec fn opens_conjunction(b: u8) -> bool {
    b == 97 || b == 116
}

/// One line. A line that begins with `o`, `a`, `f` or `t` introduces the node
/// whose index is its second token. Any other line is an edge: parent,
/// child, literals. `None` if the line is neither.
pub open spec fn d4_line(st: D4State, line: Seq<u8>) -> Option<D4State> {
    let toks = tokens(line);
    if line.len() > 0 && opens_introduction(line[0]) {
        if toks.len() >= 2 && index_value(toks[1]) is Some {
            Some(d4_introduce(st, opens_conjunction(line[0]), index_value(toks[1]).unwrap()))
        } else {
            None
        }
    } else {
        if toks.len() >= 2 && index_value(toks[0]) is Some && index_value(toks[1]) is Some
            && edge_literals(toks.skip(2)) is Some {
            d4_edge(
                st,
                index_value(toks[0]).unwrap(),
                index_value(toks[1]).unwrap(),
                edge_literals(toks.skip(2)).unwrap(),
            )
        } else {
            None
        }
    }
}

/// The first `n` lines, one after the other; the number of the first line
/// that cannot be read, if there is one.
pub open spec fn d4_run(all: Seq<Seq<u8>>, n: int) -> Result<D4State, usize>
    decreases n,
{
    if n <= 0 {
        Ok(d4_start())
    } else {
        match d4_run(all, n - 1) {
            Err(k) => Err(k),
            Ok(st) => match d4_line(st, all[n - 1]) {
                Some(next) => Ok(next),
                None => Err((n - 1) as usize),
            },
        }
    }
}

/// The end of the text: node 1 must be pending and is placed last, and no
/// other node may be pending.
pub open spec fn d4_finish(st: D4State) -> Result<Seq<Gate>, ParseError> {
    if !st.pending.contains_key(1) {
        Err(ParseError::MissingRoot)
    } else if !st.pending.remove(1).is_empty() {
        Err(ParseError::DanglingNodes)
    } else {
        Ok(st.nodes.push(st.pending[1]))
    }
}

/// The circuit that a d-DNNF text describes.
pub open spec fn d4_circuit(text: Seq<u8>) -> Result<Seq<Gate>, ParseError> {
    match d4_run(lines(text), lines(text).len() as int) {
        Err(k) => Err(ParseError::Malformed(k)),
        Ok(st) => d4_finish(st),
    }
}

/// No leaf holds zero, which is no literal.
pub open spec fn no_zero_leaf(gates: Seq<Gate>) -> bool {
    forall|i: int| 0 <= i < gates.len() ==> (#[trigger] gates[i]) != Gate::Leaf(0)
}

/// The literals of an edge are other than zero.
pub proof fn lemma_edge_literals_nonzero(toks: Seq<Seq<u8>>)
    requires
        edge_literals(toks) is Some,
    ensures
        forall|j: int|
            0 <= j < edge_literals(toks)->Some_0.len() ==> (#[trigger] edge_literals(
                toks,
            )->Some_0[j]) != 0,
    decreases toks.len(),
{
    if !(toks.len() == 0 || toks[0] == seq![48u8]) {
        lemma_edge_literals_nonzero(toks.skip(1));
        let rest = edge_literals(toks.skip(1))->Some_0;
        let all = edge_literals(toks)->Some_0;
        assert forall|j: int| 0 <= j < all.len() implies (#[trigger] all[j]) != 0 by {
            if j > 0 {
                assert(all[j] == rest[j - 1]);
            }
        }
    }
}

/// What holds of everything read so far: the placed gates are in
/// topological order, share their leaves and hold no zero, and a pending
/// node is no leaf and has its children among the placed gates.
pub open spec fn d4_inv(st: D4State) -> bool {
    &&& topological(st.nodes)
    &&& leaves_shared(st.nodes)
    &&& no_zero_leaf(st.nodes)
    &&& forall|k: usize| #[trigger] st.pending.contains_key(k) ==> !(st.pending[k] is Leaf)
    &&& forall|k: usize, j: int|
        st.pending.contains_key(k) && 0 <= j < st.pending[k].children().len() ==> 0 <= (
        #[trigger] st.pending[k].children()[j]) < st.nodes.len()
    &&& forall|k: int|
        0 <= k < st.slots.len() && (#[trigger] st.slots[k]) is Some ==> 0 <= st.slots[k].unwrap()
            < st.nodes.len()
}

/// Where `leaf_position` finds a leaf there is one, and where it finds none
/// there is none.
pub proof fn lemma_leaf_position(gates: Seq<Gate>, lit: i32)
    ensures
        match leaf_position(gates, lit) {
            Some(p) => 0 <= p < gates.len() && gates[p] == Gate::Leaf(lit),
            None => forall|i: int| 0 <= i < gates.len() ==> gates[i] != Gate::Leaf(lit),
        },
    decreases gates.len(),
{
    if gates.len() > 0 {
        lemma_leaf_position(gates.drop_last(), lit);
        if leaf_position(gates, lit) is None {
            assert forall|i: int| 0 <= i < gates.len() implies gates[i] != Gate::Leaf(lit) by {
                if i < gates.len() - 1 {
                    assert(gates[i] == gates.drop_last()[i]);
                }
            }
        }
    }
}

/// The leaves of some literals: the gates only grow, stay in order and
/// share their leaves, and each place holds the leaf of its literal.
pub proof fn lemma_d4_leaves(gates: Seq<Gate>, lits: Seq<i32>)
    requires
        topological(gates),
        leaves_shared(gates),
        no_zero_leaf(gates),
        forall|j: int| 0 <= j < lits.len() ==> (#[trigger] lits[j]) != 0,
    ensures
        ({
            let (after, places) = d4_leaves(gates, lits);
            &&& topological(after)
            &&& leaves_shared(after)
            &&& no_zero_leaf(after)
            &&& gates.len() <= after.len()
            &&& after.take(gates.len() as int) == gates
            &&& places.len() == lits.len()
            &&& forall|j: int|
                0 <= j < places.len() ==> 0 <= (#[trigger] places[j]) < after.len()
                    && after[places[j]] == Gate::Leaf(lits[j])
        }),
    decreases lits.len(),
{
    if lits.len() == 0 {
        assert(gates.take(gates.len() as int) =~= gates);
    } else {
        assert forall|j: int| 0 <= j < lits.drop_last().len() implies (#[trigger] lits.drop_last()[j])
            != 0 by {
            assert(lits[j] != 0);
        }
        assert(lits[lits.len() - 1] != 0);
        lemma_d4_leaves(gates, lits.drop_last());
        let (before, places) = d4_leaves(gates, lits.drop_last());
        let (after, all) = d4_leaves(gates, lits);
        lemma_leaf_position(before, lits.last());
        match leaf_position(before, lits.last()) {
            Some(p) => {},
            None => {
                lemma_push_in_order(before, Gate::Leaf(lits.last()));
                assert(after.take(gates.len() as int) =~= before.take(gates.len() as int));
            },
        }
        assert forall|j: int| 0 <= j < all.len() implies 0 <= (#[trigger] all[j]) < after.len()
            && after[all[j]] == Gate::Leaf(lits[j]) by {
            if j < places.len() {
                assert(all[j] == places[j]);
                assert(lits[j] == lits.drop_last()[j]);
            }
        }
    }
}

/// An introduction keeps what holds of the state.
pub proof fn lemma_d4_introduce(st: D4State, conjunction: bool, index: usize)
    requires
        d4_inv(st),
    ensures
        d4_inv(d4_introduce(st, conjunction, index)),
{
    let next = d4_introduce(st, conjunction, index);
    assert forall|k: int| 0 <= k < next.slots.len() && (#[trigger] next.slots[k]) is Some implies 0 <= next.slots[k].unwrap()
        < next.nodes.len() by {
        assert(next.slots[k] == st.slots[k]);
    }
}

/// Placing a node keeps what holds of the state, and its place is taken.
pub proof fn lemma_d4_place(st: D4State, index: usize)
    requires
        d4_inv(st),
        d4_place(st, index) is Some,
    ensures
        d4_inv(d4_place(st, index).unwrap().0),
        0 <= d4_place(st, index).unwrap().1 < d4_place(st, index).unwrap().0.nodes.len(),
        st.nodes.len() <= d4_place(st, index).unwrap().0.nodes.len(),
{
    let (next, place) = d4_place(st, index).unwrap();
    if st.slots[index as int] is None {
        let gate = st.pending[index];
        assert(st.pending.contains_key(index));
        lemma_push_in_order(st.nodes, gate);
        assert forall|k: int| 0 <= k < next.slots.len() && (#[trigger] next.slots[k]) is Some implies 0 <= next.slots[k].unwrap()
            < next.nodes.len() by {
            if k != index {
                assert(next.slots[k] == st.slots[k]);
            }
        }
        assert forall|k: usize, j: int|
            next.pending.contains_key(k) && 0 <= j < next.pending[k].children().len() implies 0 <= (
        #[trigger] next.pending[k].children()[j]) < next.nodes.len() by {
            assert(st.pending.contains_key(k));
            assert(st.pending[k].children()[j] < st.nodes.len());
        }
        assert forall|i: int, j: int|
            0 <= i < next.nodes.len() && 0 <= j < next.nodes.len() && next.nodes[i] is Leaf
                && next.nodes[i] == next.nodes[j] implies i == j by {
            assert(!(gate is Leaf));
        }
    }
}

/// An edge keeps what holds of the state.
pub proof fn lemma_d4_edge(st: D4State, parent: usize, child: usize, lits: Seq<i32>)
    requires
        d4_inv(st),
        d4_edge(st, parent, child, lits) is Some,
        forall|j: int| 0 <= j < lits.len() ==> (#[trigger] lits[j]) != 0,
    ensures
        d4_inv(d4_edge(st, parent, child, lits).unwrap()),
{
    lemma_d4_place(st, child);
    let (placed, child_place) = d4_place(st, child).unwrap();
    lemma_d4_leaves(placed.nodes, lits);
    let (gates, places) = d4_leaves(placed.nodes, lits);
    let next = d4_edge(st, parent, child, lits).unwrap();
    let source = if lits.len() == 0 {
        child_place
    } else {
        gates.len() as int
    };
    if lits.len() > 0 {
        let conj = Gate::And(places.push(child_place));
        assert forall|k: int| 0 <= k < conj.children().len() implies 0 <= (#[trigger] conj.children()[k])
            < gates.len() by {
            if k < places.len() {
                assert(conj.children()[k] == places[k]);
            }
        }
        lemma_push_in_order(gates, conj);
        assert forall|i: int, j: int|
            0 <= i < next.nodes.len() && 0 <= j < next.nodes.len() && next.nodes[i] is Leaf
                && next.nodes[i] == next.nodes[j] implies i == j by {
            if i < gates.len() && j < gates.len() {
                assert(next.nodes[i] == gates[i]);
                assert(next.nodes[j] == gates[j]);
            }
        }
    }
    assert(0 <= source < next.nodes.len());
    assert(placed.nodes.len() <= next.nodes.len());
    assert forall|k: usize, j: int|
        next.pending.contains_key(k) && 0 <= j < next.pending[k].children().len() implies 0 <= (
    #[trigger] next.pending[k].children()[j]) < next.nodes.len() by {
        if k == parent {
            let old_gate = placed.pending[parent];
            assert(placed.pending.contains_key(parent));
            if j < old_gate.children().len() {
                assert(next.pending[k].children()[j] == old_gate.children()[j]);
            }
        } else {
            assert(placed.pending.contains_key(k));
            assert(placed.pending[k].children()[j] < placed.nodes.len());
        }
    }
    assert forall|k: usize| #[trigger] next.pending.contains_key(k) implies !(next.pending[k] is Leaf) by {
        if k == parent {
            assert(placed.pending.contains_key(parent));
        } else {
            assert(placed.pending.contains_key(k));
        }
    }
    assert forall|k: int| 0 <= k < next.slots.len() && (#[trigger] next.slots[k]) is Some implies 0 <= next.slots[k].unwrap()
        < next.nodes.len() by {
        assert(0 <= placed.slots[k].unwrap() < placed.nodes.len());
    }
}

/// Reading lines keeps what holds of the state.
pub proof fn lemma_d4_run(all: Seq<Seq<u8>>, n: int)
    requires
        0 <= n <= all.len(),
        d4_run(all, n) is Ok,
    ensures
        d4_inv(d4_run(all, n)->Ok_0),
    decreases n,
{
    if n > 0 {
        lemma_d4_run(all, n - 1);
        let st = d4_run(all, n - 1)->Ok_0;
        let line = all[n - 1];
        let toks = tokens(line);
        if line.len() > 0 && opens_introduction(line[0]) {
            lemma_d4_introduce(st, opens_conjunction(line[0]), index_value(toks[1]).unwrap());
        } else {
            lemma_edge_literals_nonzero(toks.skip(2));
            lemma_d4_edge(
                st,
                index_value(toks[0]).unwrap(),
                index_value(toks[1]).unwrap(),
                edge_literals(toks.skip(2)).unwrap(),
            );
        }
    }
}

/// Once a line cannot be read, reading on changes nothing.
pub proof fn lemma_d4_run_stuck(all: Seq<Seq<u8>>, n: int, m: int)
    requires
        0 <= n <= m,
        d4_run(all, n) is Err,
    ensures
        d4_run(all, m) == d4_run(all, n),
    decreases m,
{
    if m > n {
        lemma_d4_run_stuck(all, n, m - 1);
    }
}

/// Every circuit that a d-DNNF text describes is in topological order with
/// its root last, no literal has two leaves in it, and no leaf holds zero.
pub proof fn lemma_d4_circuit_ordered(text: Seq<u8>)
    requires
        d4_circuit(text) is Ok,
    ensures
        topological(d4_circuit(text)->Ok_0),
        leaves_shared(d4_circuit(text)->Ok_0),
        no_zero_leaf(d4_circuit(text)->Ok_0),
        d4_circuit(text)->Ok_0.len() > 0,
        !(d4_circuit(text)->Ok_0.last() is Leaf),
{
    let all = lines(text);
    lemma_d4_run(all, all.len() as int);
    let st = d4_run(all, all.len() as int)->Ok_0;
    let root = st.pending[1];
    assert(st.pending.contains_key(1));
    lemma_push_in_order(st.nodes, root);
    let gates = st.nodes.push(root);
    assert forall|i: int, j: int|
        0 <= i < gates.len() && 0 <= j < gates.len() && gates[i] is Leaf && gates[i]
            == gates[j] implies i == j by {
        assert(!(root is Leaf));
    }
}

/// The places that a vector of slots holds.
pub open spec fn slots_of(slots: Seq<Option<usize>>) -> Seq<Option<int>> {
    slots.map_values(
        |s: Option<usize>|
            match s {
                Some(p) => Some(p as int),
                None => None,
            },
    )
}

/// The gates that a table of pending nodes holds.
pub open spec fn pending_of(pending: Map<usize, Node>) -> Map<usize, Gate> {
    pending.map_values(|n: Node| n@)
}

/// One more gate at the end moves no leaf that was found before, and is
/// found itself if it is the first leaf of its literal.
proof fn lemma_leaf_position_push(gates: Seq<Gate>, gate: Gate, lit: i32)
    ensures
        leaf_position(gates.push(gate), lit) == match leaf_position(gates, lit) {
            Some(p) => Some(p),
            None => if gate == Gate::Leaf(lit) {
                Some(gates.len() as int)
            } else {
                None
            },
        },
{
    assert(gates.push(gate).drop_last() =~= gates);
}

/// The reader of a d-DNNF text: the state read so far, and where each
/// literal has its leaf.
struct D4Reader {
    nodes: Vec<Node>,
    slots: Vec<Option<usize>>,
    pending: HashMap<usize, Node>,
    leaves: HashMap<i32, usize>,
}

impl D4Reader {
    spec fn state(&self) -> D4State {
        D4State {
            nodes: gates_of(self.nodes@),
            slots: slots_of(self.slots@),
            pending: pending_of(self.pending@),
        }
    }

    /// The table of leaves holds exactly the first leaf of each literal, and
    /// no pending node is a leaf.
    spec fn inv(&self) -> bool {
        &&& forall|l: i32| #[trigger]
            self.leaves@.contains_key(l) <==> leaf_position(gates_of(self.nodes@), l) is Some
        &&& forall|l: i32| #[trigger]
            self.leaves@.contains_key(l) ==> leaf_position(gates_of(self.nodes@), l) == Some(
                self.leaves@[l] as int,
            )
        &&& forall|k: usize| #[trigger]
            self.pending@.contains_key(k) ==> !(self.pending@[k] is Leaf)
    }

    fn new() -> (r: Self)
        ensures
            r.inv(),
            r.state() == d4_start(),
    {
        let mut slots: Vec<Option<usize>> = Vec::new();
        slots.push(None);
        let r = D4Reader { nodes: Vec::new(), slots, pending: HashMap::new(), leaves: HashMap::new() };
        assert(r.state().nodes =~= d4_start().nodes);
        assert(r.state().slots =~= d4_start().slots);
        assert(r.state().pending =~= d4_start().pending);
        r
    }

    /// Appends a gate that is no leaf.
    fn push_gate(&mut self, node: Node)
        requires
            old(self).inv(),
            !(node is Leaf),
        ensures
            final(self).inv(),
            final(self).nodes@ == old(self).nodes@.push(node),
            gates_of(final(self).nodes@) == gates_of(old(self).nodes@).push(node@),
            final(self).slots == old(self).slots,
            final(self).pending == old(self).pending,
            final(self).leaves == old(self).leaves,
    {
        let ghost before = gates_of(self.nodes@);
        self.nodes.push(node);
        assert(gates_of(self.nodes@) =~= before.push(node@));
        assert forall|l: i32|
            leaf_position(before.push(node@), l) == leaf_position(before, l) by {
            lemma_leaf_position_push(before, node@, l);
        }
    }

    fn introduce(&mut self, conjunction: bool, index: usize)
        requires
            old(self).inv(),
        ensures
            final(self).inv(),
            final(self).state() == d4_introduce(old(self).state(), conjunction, index),
    {
        let node = if conjunction {
            Node::And(Vec::new())
        } else {
            Node::Or(Vec::new())
        };
        assert(node@.children() =~= Seq::<int>::empty());
        self.pending.insert(index, node);
        self.slots.push(None);
        let ghost want = d4_introduce(old(self).state(), conjunction, index);
        assert(self.state().slots =~= want.slots);
        assert(self.state().pending =~= want.pending);
    }

    /// The place of the node with this index, which it gets now if it is pending.
    fn place(&mut self, index: usize) -> (r: Option<usize>)
        requires
            old(self).inv(),
        ensures
            final(self).inv(),
            match r {
                Some(p) => d4_place(old(self).state(), index) == Some((final(self).state(), p as int)),
                None => d4_place(old(self).state(), index) is None,
            },
    {
        if index >= self.slots.len() {
            return None;
        }
        match self.slots[index] {
            Some(p) => Some(p),
            None => {
                match self.pending.remove(&index) {
                    Some(node) => {
                        let p = self.nodes.len();
                        self.push_gate(node);
                        self.slots.set(index, Some(p));
                        let ghost want = d4_place(old(self).state(), index).unwrap().0;
                        assert(self.state().slots =~= want.slots);
                        assert(self.state().pending =~= want.pending);
                        Some(p)
                    },
                    None => None,
                }
            },
        }
    }

    /// The places of the leaves of the literals, new leaves put at the end.
    fn leaves_of(&mut self, lits: &Vec<i32>) -> (r: Vec<usize>)
        requires
            old(self).inv(),
        ensures
            final(self).inv(),
            (gates_of(final(self).nodes@), positions(r@)) == d4_leaves(
                gates_of(old(self).nodes@),
                lits@,
            ),
            final(self).slots == old(self).slots,
            final(self).pending == old(self).pending,
    {
        let mut places: Vec<usize> = Vec::new();
        let mut i: usize = 0;
        assert(lits@.take(0) =~= Seq::<i32>::empty());
        assert(positions(places@) =~= Seq::<int>::empty());
        while i < lits.len()
            invariant
                i <= lits.len(),
                self.inv(),
                (gates_of(self.nodes@), positions(places@)) == d4_leaves(
                    gates_of(old(self).nodes@),
                    lits@.take(i as int),
                ),
                self.slots == old(self).slots,
                self.pending == old(self).pending,
            decreases lits.len() - i,
        {
            let lit = lits[i];
            let ghost before = gates_of(self.nodes@);
            let ghost seen = positions(places@);
            assert(lits@.take(i + 1).drop_last() =~= lits@.take(i as int));
            assert(lits@.take(i + 1).last() == lit);
            let found = match self.leaves.get(&lit) {
                Some(p) => Some(*p),
                None => None,
            };
            match found {
                Some(p) => {
                    places.push(p);
                    assert(positions(places@) =~= seen.push(p as int));
                },
                None => {
                    let p = self.nodes.len();
                    self.nodes.push(Node::Leaf(lit));
                    self.leaves.insert(lit, p);
                    places.push(p);
                    assert(positions(places@) =~= seen.push(p as int));
                    assert(gates_of(self.nodes@) =~= before.push(Gate::Leaf(lit)));
                    assert forall|l: i32|
                        leaf_position(before.push(Gate::Leaf(lit)), l) == (if l == lit {
                            Some(p as int)
                        } else {
                            leaf_position(before, l)
                        }) by {
                        lemma_leaf_position_push(before, Gate::Leaf(lit), l);
                    }
                },
            }
            i += 1;
        }
        assert(lits@.take(lits@.len() as int) =~= lits@);
        places
    }

    /// An edge; `false` if it names a node that is not there.
    fn edge(&mut self, parent: usize, child: usize, lits: &Vec<i32>) -> (r: bool)
        requires
            old(self).inv(),
        ensures
            final(self).inv(),
            r ==> d4_edge(old(self).state(), parent, child, lits@) == Some(final(self).state()),
            !r ==> d4_edge(old(self).state(), parent, child, lits@) is None,
    {
        let child_place = match self.place(child) {
            Some(p) => p,
            None => {
                return false;
            },
        };
        let ghost placed = self.state();
        let source = if lits.len() == 0 {
            child_place
        } else {
            let mut places = self.leaves_of(lits);
            let ghost found = positions(places@);
            places.push(child_place);
            assert(positions(places@) =~= found.push(child_place as int));
            let at = self.nodes.len();
            self.push_gate(Node::And(places));
            at
        };
        match self.pending.remove(&parent) {
            Some(mut node) => {
                node.add_child(source);
                self.pending.insert(parent, node);
                let ghost want = d4_edge(old(self).state(), parent, child, lits@).unwrap();
                assert(self.state().pending =~= want.pending);
                true
            },
            None => false,
        }
    }

    /// One line; `false` if it cannot be read.
    fn line(&mut self, line: &[u8]) -> (r: bool)
        requires
            old(self).inv(),
        ensures
            final(self).inv(),
            r ==> d4_line(old(self).state(), line@) == Some(final(self).state()),
            !r ==> d4_line(old(self).state(), line@) is None,
    {
        let toks = tokenize(line);
        if toks.len() < 2 {
            return false;
        }
        assert(byte_seqs(toks@)[0] == toks@[0]@);
        assert(byte_seqs(toks@)[1] == toks@[1]@);
        if line.len() > 0 && (line[0] == 111 || line[0] == 97 || line[0] == 102 || line[0] == 116) {
            match parse_index(toks[1].as_slice()) {
                Some(index) => {
                    self.introduce(line[0] == 97 || line[0] == 116, index);
                    true
                },
                None => false,
            }
        } else {
            let parent = match parse_index(toks[0].as_slice()) {
                Some(index) => index,
                None => {
                    return false;
                },
            };
            let child = match parse_index(toks[1].as_slice()) {
                Some(index) => index,
                None => {
                    return false;
                },
            };
            let lits = match read_literals(&toks, 2) {
                Some(lits) => lits,
                None => {
                    return false;
                },
            };
            self.edge(parent, child, &lits)
        }
    }

    /// The end of the text.
    fn finish(self) -> (r: Result<Circuit, ParseError>)
        requires
            self.inv(),
        ensures
            match r {
                Ok(c) => d4_finish(self.state()) == Ok::<Seq<Gate>, ParseError>(c@),
                Err(e) => d4_finish(self.state()) == Err::<Seq<Gate>, ParseError>(e),
            },
    {
        let mut pending = self.pending;
        let mut nodes = self.nodes;
        match pending.remove(&1) {
            None => Err(ParseError::MissingRoot),
            Some(root) => {
                assert(pending_of(self.pending@).remove(1).dom() =~= pending@.dom());
                if !pending.is_empty() {
                    Err(ParseError::DanglingNodes)
                } else {
                    let ghost before = gates_of(nodes@);
                    nodes.push(root);
                    assert(gates_of(nodes@) =~= before.push(root@));
                    Ok(Circuit { nodes })
                }
            },
        }
    }
}

/// Reads the literals of an edge from the tokens at `from` on.
fn read_literals(toks: &Vec<Vec<u8>>, from: usize) -> (r: Option<Vec<i32>>)
    requires
        from <= toks@.len(),
    ensures
        match r {
            Some(lits) => edge_literals(byte_seqs(toks@).skip(from as int)) == Some(lits@),
            None => edge_literals(byte_seqs(toks@).skip(from as int)) is None,
        },
{
    let ghost all = byte_seqs(toks@);
    let mut lits: Vec<i32> = Vec::new();
    let mut i: usize = from;
    assert(lits@ + Seq::<i32>::empty() =~= lits@);
    while i < toks.len()
        invariant
            from <= i <= toks.len(),
            all == byte_seqs(toks@),
            edge_literals(all.skip(from as int)) == match edge_literals(all.skip(i as int)) {
                Some(rest) => Some(lits@ + rest),
                None => None,
            },
        decreases toks.len() - i,
    {
        let tok = toks[i].as_slice();
        let ghost here = all.skip(i as int);
        assert(here[0] == tok@);
        assert(here.skip(1) =~= all.skip(i + 1));
        if tok.len() == 1 && tok[0] == 48 {
            assert(tok@ =~= seq![48u8]);
            assert(lits@ + Seq::<i32>::empty() =~= lits@);
            return Some(lits);
        }
        assert(tok@ != seq![48u8]) by {
            if tok@ == seq![48u8] {
                assert(tok@.len() == 1 && tok@[0] == 48);
            }
        }
        match parse_literal(tok) {
            Some(l) => {
                if l == 0 {
                    return None;
                }
                let ghost before = lits@;
                lits.push(l);
                assert forall|rest: Seq<i32>| before + (seq![l] + rest) == #[trigger] (lits@ + rest) by {
                    assert(before + (seq![l] + rest) =~= lits@ + rest);
                }
            },
            None => {
                return None;
            },
        }
        i += 1;
    }
    assert(lits@ + Seq::<i32>::empty() =~= lits@);
    Some(lits)
}

/// Reads the d-DNNF output of a knowledge compiler.
///
/// The result is the circuit that the text describes line by line: in
/// topological order, the root last, each literal with a single leaf. A text
/// that is not of the format gives the error that says where it fails.
pub fn parse_d4(text: &str) -> (r: Result<Circuit, ParseError>)
    ensures
        match r {
            Ok(c) => d4_circuit(text.spec_bytes()) == Ok::<Seq<Gate>, ParseError>(c@),
            Err(e) => d4_circuit(text.spec_bytes()) == Err::<Seq<Gate>, ParseError>(e),
        },
        r matches Ok(c) ==> c.wf() && leaves_shared(c@) && no_zero_leaf(c@) && c@.len() > 0,
{
    let all = split_lines(text.as_bytes());
    let ghost all_lines = lines(text.spec_bytes());
    let mut reader = D4Reader::new();
    let mut i: usize = 0;
    while i < all.len()
        invariant
            i <= all.len(),
            all_lines == byte_seqs(all@),
            all_lines == lines(text.spec_bytes()),
            reader.inv(),
            d4_run(all_lines, i as int) == Ok::<D4State, usize>(reader.state()),
        decreases all.len() - i,
    {
        assert(all_lines[i as int] == all@[i as int]@);
        if !reader.line(all[i].as_slice()) {
            proof {
                lemma_d4_run_stuck(all_lines, i + 1, all_lines.len() as int);
            }
            return Err(ParseError::Malformed(i));
        }
        i += 1;
    }
    let r = reader.finish();
    proof {
        if r is Ok {
            lemma_d4_circuit_ordered(text.spec_bytes());
        }
    }
    r
}

/// The literals that the tokens of a DIMACS line give: those before the
/// first token that denotes zero. `None` if a token before that is no
/// 32-bit integer.
pub open spec fn dimacs_clause(toks: Seq<Seq<u8>>) -> Option<Seq<i32>>
    decreases toks.len(),
{
    if toks.len() == 0 {
        Some(Seq::empty())
    } else {
        match literal_value(toks[0]) {
            None => None,
            Some(l) => if l == 0 {
                Some(Seq::empty())
            } else {
                match dimacs_clause(toks.skip(1)) {
                    Some(rest) => Some(seq![l] + rest),
                    None => None,
                }
            },
        }
    }
}

/// Whether a line is a comment or the header: it begins with `c` or `p`.
pub open spec fn dimacs_skipped(line: Seq<u8>) -> bool {
    line.len() > 0 && (line[0] == 99 || line[0] == 112)
}

/// The clauses of the first `n` lines; the number of the first line that
/// cannot be read, if there is one.
pub open spec fn dimacs_clauses(all: Seq<Seq<u8>>, n: int) -> Result<Seq<Seq<i32>>, usize>
    decreases n,
{
    if n <= 0 {
        Ok(Seq::empty())
    } else {
        match dimacs_clauses(all, n - 1) {
            Err(k) => Err(k),
            Ok(clauses) => if dimacs_skipped(all[n - 1]) {
                Ok(clauses)
            } else {
                match dimacs_clause(tokens(all[n - 1])) {
                    Some(clause) => Ok(clauses.push(clause)),
                    None => Err((n - 1) as usize),
                }
            },
        }
    }
}

/// The conjunction of the disjunctions of some clauses.
pub open spec fn cnf_of_clauses(clauses: Seq<Seq<i32>>) -> Formula {
    Formula::Prod(
        Seq::new(
            clauses.len(),
            |i: int| Formula::Sum(Seq::new(clauses[i].len(), |j: int| Formula::Val(clauses[i][j]))),
        ),
    )
}

/// The formula that a DIMACS text describes: one clause for each line
/// that is no comment and not the header.
pub open spec fn dimacs_formula(text: Seq<u8>) -> Result<Formula, ParseError> {
    match dimacs_clauses(lines(text), lines(text).len() as int) {
        Ok(clauses) => Ok(cnf_of_clauses(clauses)),
        Err(k) => Err(ParseError::Malformed(k)),
    }
}

/// Once a line cannot be read, reading on changes nothing.
pub proof fn lemma_dimacs_stuck(all: Seq<Seq<u8>>, n: int, m: int)
    requires
        0 <= n <= m,
        dimacs_clauses(all, n) is Err,
    ensures
        dimacs_clauses(all, m) == dimacs_clauses(all, n),
    decreases m,
{
    if m > n {
        lemma_dimacs_stuck(all, n, m - 1);
    }
}

/// Reads the clause of a DIMACS line from its tokens.
fn read_clause(toks: &Vec<Vec<u8>>) -> (r: Option<Vec<Rc<RNode>>>)
    ensures
        match r {
            Some(nodes) => dimacs_clause(byte_seqs(toks@)) matches Some(lits) && formulas_of(nodes@)
                == Seq::new(lits.len(), |j: int| Formula::Val(lits[j])),
            None => dimacs_clause(byte_seqs(toks@)) is None,
        },
{
    let ghost all = byte_seqs(toks@);
    let mut nodes: Vec<Rc<RNode>> = Vec::new();
    let ghost mut lits: Seq<i32> = Seq::empty();
    let mut i: usize = 0;
    assert(all.skip(0) =~= all);
    assert(lits + Seq::<i32>::empty() =~= lits);
    assert(formulas_of(nodes@) =~= Seq::new(lits.len(), |j: int| Formula::Val(lits[j])));
    while i < toks.len()
        invariant
            i <= toks.len(),
            all == byte_seqs(toks@),
            dimacs_clause(all) == match dimacs_clause(all.skip(i as int)) {
                Some(rest) => Some(lits + rest),
                None => None,
            },
            formulas_of(nodes@) == Seq::new(lits.len(), |j: int| Formula::Val(lits[j])),
        decreases toks.len() - i,
    {
        let tok = toks[i].as_slice();
        let ghost here = all.skip(i as int);
        assert(here[0] == tok@);
        assert(here.skip(1) =~= all.skip(i + 1));
        match parse_literal(tok) {
            Some(l) => {
                if l == 0 {
                    assert(lits + Seq::<i32>::empty() =~= lits);
                    return Some(nodes);
                }
                let ghost before = lits;
                let ghost seen = formulas_of(nodes@);
                nodes.push(Rc::new(RNode::Val(l)));
                proof {
                    lits = lits.push(l);
                    assert forall|rest: Seq<i32>| before + (seq![l] + rest) == #[trigger] (lits
                        + rest) by {
                        assert(before + (seq![l] + rest) =~= lits + rest);
                    }
                    assert(formulas_of(nodes@) =~= seen.push(Formula::Val(l)));
                    assert(formulas_of(nodes@) =~= Seq::new(
                        lits.len(),
                        |j: int| Formula::Val(lits[j]),
                    ));
                }
            },
            None => {
                return None;
            },
        }
        i += 1;
    }
    assert(all.skip(all.len() as int) =~= Seq::<Seq<u8>>::empty());
    assert(lits + Seq::<i32>::empty() =~= lits);
    Some(nodes)
}

/// Reads a formula in conjunctive normal form from DIMACS text.
///
/// Lines that begin with `c` or `p` are passed over. Every other line gives
/// one clause: its integers up to the first zero. A line with a token
/// before that zero that is no 32-bit integer gives the error with its number.
pub fn parse_dimacs(text: &str) -> (r: Result<RCircuit, ParseError>)
    ensures
        match r {
            Ok(c) => dimacs_formula(text.spec_bytes()) == Ok::<Formula, ParseError>(c@),
            Err(e) => dimacs_formula(text.spec_bytes()) == Err::<Formula, ParseError>(e),
        },
{
    let all = split_lines(text.as_bytes());
    let ghost all_lines = lines(text.spec_bytes());
    let mut clauses: Vec<Rc<RNode>> = Vec::new();
    let ghost mut seen: Seq<Seq<i32>> = Seq::empty();
    let mut i: usize = 0;
    assert(formulas_of(clauses@) =~= cnf_of_clauses(seen)->Prod_0);
    while i < all.len()
        invariant
            i <= all.len(),
            all_lines == byte_seqs(all@),
            all_lines == lines(text.spec_bytes()),
            dimacs_clauses(all_lines, i as int) == Ok::<Seq<Seq<i32>>, usize>(seen),
            formulas_of(clauses@) == cnf_of_clauses(seen)->Prod_0,
        decreases all.len() - i,
    {
        let line = all[i].as_slice();
        assert(all_lines[i as int] == line@);
        if !(line.len() > 0 && (line[0] == 99 || line[0] == 112)) {
            let toks = tokenize(line);
            match read_clause(&toks) {
                Some(nodes) => {
                    let ghost clause = dimacs_clause(byte_seqs(toks@))->Some_0;
                    let ghost before = formulas_of(clauses@);
                    let sum = Rc::new(RNode::Sum(nodes));
                    clauses.push(sum);
                    proof {
                        seen = seen.push(clause);
                        assert(formulas_of(clauses@) =~= before.push(sum@));
                        assert(formulas_of(clauses@) =~= cnf_of_clauses(seen)->Prod_0);
                    }
                },
                None => {
                    proof {
                        lemma_dimacs_stuck(all_lines, i + 1, all_lines.len() as int);
                    }
                    return Err(ParseError::Malformed(i));
                },
            }
        }
        i += 1;
    }
    Ok(RCircuit::from(RNode::Prod(clauses)))
}

} // verus!
