//! The semiring of circuits: sums and products append gates to a buffer.
use vstd::prelude::*;
use crate::algebra::CircuitSemiring;
use crate::circuit::circuit::{gates_of, positions, Gate, Node};

verus! {

/// The buffer that the elements of the semiring of circuits point into.
/// Position 0 holds the constant zero, an empty disjunction, and position 1
/// the constant one, an empty conjunction.
pub struct CircuitContext {
    id: usize,
    nodes: Vec<Node>,
}

impl View for CircuitContext {
    type V = Seq<Gate>;

    closed spec fn view(&self) -> Seq<Gate> {
        gates_of(self.nodes@)
    }
}

/// The positions that some elements point at.
pub open spec fn positions_of(items: Seq<CircuitSemiring>) -> Seq<int> {
    Seq::new(items.len(), |k: int| items[k].ix as int)
}

impl CircuitSemiring {
    /// The constant zero: position 0 of every buffer.
    pub fn zero() -> (r: Self)
        ensures
            r == (CircuitSemiring { ix: 0, context: None }),
    {
        CircuitSemiring { ix: 0, context: None }
    }

    /// The constant one: position 1 of every buffer.
    pub fn one() -> (r: Self)
        ensures
            r == (CircuitSemiring { ix: 1, context: None }),
    {
        CircuitSemiring { ix: 1, context: None }
    }
}

impl CircuitContext {
    /// The name of the buffer.
    pub closed spec fn id(&self) -> usize {
        self.id
    }

    /// Whether an element belongs to this buffer: it is a constant, or it
    /// names this buffer.
    pub open spec fn accepts_spec(&self, item: CircuitSemiring) -> bool {
        item.context is None || item.context == Some(self.id())
    }

    /// Whether all of some elements belong to this buffer.
    pub open spec fn accepts_all(&self, items: Seq<CircuitSemiring>) -> bool {
        forall|k: int| 0 <= k < items.len() ==> self.accepts_spec(#[trigger] items[k])
    }

    /// A buffer with the name `id` that holds the given gates.
    pub fn new(id: usize, nodes: Vec<Node>) -> (r: Self)
        ensures
            r.id() == id,
            r@ == gates_of(nodes@),
    {
        CircuitContext { id, nodes }
    }

    /// Whether an element belongs to this buffer.
    #[verifier::when_used_as_spec(accepts_spec)]
    pub fn accepts(&self, item: CircuitSemiring) -> (b: bool)
        ensures
            b == self.accepts_spec(item),
    {
        match item.context {
            None => true,
            Some(id) => id == self.id,
        }
    }

    /// The element that points at position `ix` of this buffer.
    pub fn handle(&self, ix: usize) -> (r: CircuitSemiring)
        ensures
            r == (CircuitSemiring { ix, context: Some(self.id()) }),
    {
        CircuitSemiring { ix, context: Some(self.id) }
    }

    /// The number of gates in the buffer.
    pub fn len(&self) -> (n: usize)
        ensures
            n == self@.len(),
    {
        self.nodes.len()
    }

    fn push(&mut self, node: Node) -> (r: CircuitSemiring)
        ensures
            final(self).id() == old(self).id(),
            final(self)@ == old(self)@.push(node@),
            r.ix == old(self)@.len(),
            r.context == Some(old(self).id()),
    {
        let ghost before = gates_of(self.nodes@);
        let ix = self.nodes.len();
        self.nodes.push(node);
        assert(gates_of(self.nodes@) =~= before.push(node@));
        CircuitSemiring { ix, context: Some(self.id) }
    }

    fn pair(lhs: usize, rhs: usize) -> (r: Vec<usize>)
        ensures
            positions(r@) == seq![lhs as int, rhs as int],
    {
        let mut r: Vec<usize> = Vec::new();
        r.push(lhs);
        r.push(rhs);
        assert(positions(r@) =~= seq![lhs as int, rhs as int]);
        r
    }

    fn indices(items: &Vec<CircuitSemiring>) -> (r: Vec<usize>)
        ensures
            positions(r@) == positions_of(items@),
    {
        let mut r: Vec<usize> = Vec::new();
        let mut k: usize = 0;
        while k < items.len()
            invariant
                k <= items.len(),
                r@.len() == k,
                forall|j: int| 0 <= j < k ==> (#[trigger] r@[j]) == items@[j].ix,
            decreases items.len() - k,
        {
            r.push(items[k].ix);
            k += 1;
        }
        assert(positions(r@) =~= positions_of(items@));
        r
    }

    /// The sum of two elements: a new disjunction of the two at the end of the buffer.
    pub fn add(&mut self, lhs: CircuitSemiring, rhs: &CircuitSemiring) -> (r: CircuitSemiring)
        requires
            old(self).accepts_spec(lhs),
            old(self).accepts_spec(*rhs),
        ensures
            final(self).id() == old(self).id(),
            final(self)@ == old(self)@.push(Gate::Or(seq![lhs.ix as int, rhs.ix as int])),
            r.ix == old(self)@.len(),
            r.context == Some(old(self).id()),
    {
        self.push(Node::Or(Self::pair(lhs.ix, rhs.ix)))
    }

    /// The product of two elements: a new conjunction of the two at the end of the buffer.
    pub fn mul(&mut self, lhs: CircuitSemiring, rhs: &CircuitSemiring) -> (r: CircuitSemiring)
        requires
            old(self).accepts_spec(lhs),
            old(self).accepts_spec(*rhs),
        ensures
            final(self).id() == old(self).id(),
            final(self)@ == old(self)@.push(Gate::And(seq![lhs.ix as int, rhs.ix as int])),
            r.ix == old(self)@.len(),
            r.context == Some(old(self).id()),
    {
        self.push(Node::And(Self::pair(lhs.ix, rhs.ix)))
    }

    /// The sum of some elements: the constant zero if there is none, else a
    /// new disjunction of all of them at the end of the buffer.
    pub fn sum(&mut self, items: &Vec<CircuitSemiring>) -> (r: CircuitSemiring)
        requires
            old(self).accepts_all(items@),
        ensures
            final(self).id() == old(self).id(),
            items@.len() == 0 ==> final(self)@ == old(self)@ && r == (CircuitSemiring {
                ix: 0,
                context: None,
            }),
            items@.len() > 0 ==> final(self)@ == old(self)@.push(Gate::Or(positions_of(items@)))
                && r.ix == old(self)@.len() && r.context == Some(old(self).id()),
    {
        if items.len() == 0 {
            return CircuitSemiring::zero();
        }
        self.push(Node::Or(Self::indices(items)))
    }

    /// The product of some elements: the constant one if there is none, else
    /// a new conjunction of all of them at the end of the buffer.
    pub fn product(&mut self, items: &Vec<CircuitSemiring>) -> (r: CircuitSemiring)
        requires
            old(self).accepts_all(items@),
        ensures
            final(self).id() == old(self).id(),
            items@.len() == 0 ==> final(self)@ == old(self)@ && r == (CircuitSemiring {
                ix: 1,
                context: None,
            }),
            items@.len() > 0 ==> final(self)@ == old(self)@.push(Gate::And(positions_of(items@)))
                && r.ix == old(self)@.len() && r.context == Some(old(self).id()),
    {
        if items.len() == 0 {
            return CircuitSemiring::one();
        }
        self.push(Node::And(Self::indices(items)))
    }

    /// The gates of the buffer.
    pub fn into_nodes(self) -> (nodes: Vec<Node>)
        ensures
            gates_of(nodes@) == self@,
    {
        self.nodes
    }
}

} // verus!
