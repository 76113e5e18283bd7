//! Tables that give each literal an element of a semiring.
use vstd::prelude::*;
use crate::algebra::{Ring, Semiring};
use crate::circuit::lit_var;

verus! {

/// A table of weights, one per literal.
///
/// The view `Self::V` is what the table holds; `val_of` reads it and `added`
/// says what it holds after an accumulation.
pub trait Weights<T: Semiring>: View {
    /// What holds of every table that the constructors hand out.
    spec fn inv(&self) -> bool;

    /// The number of variables that the table covers.
    spec fn len_of(v: Self::V) -> nat;

    /// The weight of a literal, `None` where the table does not cover its variable.
    spec fn val_of(v: Self::V, lit: int) -> Option<T>;

    /// Whether the weight of the literal can be computed.
    spec fn val_defined(v: Self::V, lit: int) -> bool;

    /// The table after `val` has been accumulated into the weight of `lit`.
    spec fn added(v: Self::V, lit: int, val: T) -> Self::V;

    /// Whether `val` can be accumulated into the weight of `lit`.
    spec fn add_defined(v: Self::V, lit: int, val: T) -> bool;

    /// A literal has a weight exactly where its variable is covered.
    proof fn covered(v: Self::V, lit: int)
        ensures
            Self::val_of(v, lit) is Some <==> 1 <= lit_var(lit) <= Self::len_of(v),
    ;

    /// Accumulating keeps the number of variables.
    proof fn added_len(v: Self::V, lit: int, val: T)
        requires
            1 <= lit_var(lit) <= Self::len_of(v),
        ensures
            Self::len_of(Self::added(v, lit, val)) == Self::len_of(v),
    ;

    /// The weight of a literal, if the table covers its variable.
    fn val(&self, lit: i32) -> (r: Option<T>)
        requires
            self.inv(),
            Self::val_defined(self@, lit as int),
        ensures
            r == Self::val_of(self@, lit as int),
    ;

    fn len(&self) -> (n: usize)
        requires
            self.inv(),
        ensures
            n == Self::len_of(self@),
    ;

    /// Accumulates `val` into the weight of `lit`.
    fn add(&mut self, lit: i32, val: &T)
        requires
            old(self).inv(),
            1 <= lit_var(lit as int) <= Self::len_of(old(self)@),
            Self::add_defined(old(self)@, lit as int, *val),
        ensures
            final(self).inv(),
            final(self)@ == Self::added(old(self)@, lit as int, *val),
    ;
}

/// Weights with independent values for the two polarities of each variable.
pub struct PosNegWeights<T: Semiring> {
    pos_weights: Vec<T>,
    neg_weights: Vec<T>,
}

/// The position of a literal's variable in a table: its variable minus one.
pub fn literal_index(lit: i32) -> (ix: usize)
    requires
        lit != 0,
    ensures
        ix == lit_var(lit as int) - 1,
{
    if lit > 0 {
        (lit - 1) as usize
    } else {
        (-(lit + 1)) as usize
    }
}

/// The pairs of a positive and a negative weight, one pair per variable.
pub open spec fn zip_weights<T>(pos: Seq<T>, neg: Seq<T>) -> Seq<(T, T)> {
    Seq::new(pos.len(), |i: int| (pos[i], neg[i]))
}

impl<T: Semiring> View for PosNegWeights<T> {
    type V = Seq<(T, T)>;

    /// For each variable, the weight of its positive and of its negative literal.
    closed spec fn view(&self) -> Seq<(T, T)> {
        zip_weights(self.pos_weights@, self.neg_weights@)
    }
}

impl<T: Semiring> PosNegWeights<T> {
    /// A table for `len` variables, every weight zero.
    pub fn new(len: usize) -> (w: Self)
        ensures
            w.inv(),
            w@ == Seq::new(len as nat, |i: int| (T::zero_spec(), T::zero_spec())),
    {
        let mut pos_weights: Vec<T> = Vec::new();
        let mut neg_weights: Vec<T> = Vec::new();
        let mut i: usize = 0;
        while i < len
            invariant
                i <= len,
                pos_weights@ == Seq::new(i as nat, |i: int| T::zero_spec()),
                neg_weights@ == Seq::new(i as nat, |i: int| T::zero_spec()),
            decreases len - i,
        {
            pos_weights.push(T::zero());
            neg_weights.push(T::zero());
            i += 1;
        }
        PosNegWeights { pos_weights, neg_weights }
    }

    /// The table with the given weights of the positive and of the negative literals.
    pub fn from_vecs(pos_weights: Vec<T>, neg_weights: Vec<T>) -> (w: Self)
        requires
            pos_weights@.len() == neg_weights@.len(),
        ensures
            w.inv(),
            w@ == zip_weights(pos_weights@, neg_weights@),
    {
        PosNegWeights { pos_weights, neg_weights }
    }

    /// The weights of the positive and of the negative literals.
    pub fn into_vecs(self) -> (r: (Vec<T>, Vec<T>))
        requires
            self.inv(),
        ensures
            r.0@.len() == r.1@.len(),
            zip_weights(r.0@, r.1@) == self@,
    {
        (self.pos_weights, self.neg_weights)
    }
}

impl<T: Semiring> Weights<T> for PosNegWeights<T> {
    /// The two vectors are equally long.
    closed spec fn inv(&self) -> bool {
        self.pos_weights@.len() == self.neg_weights@.len()
    }

    open spec fn len_of(v: Seq<(T, T)>) -> nat {
        v.len()
    }

    open spec fn val_of(v: Seq<(T, T)>, lit: int) -> Option<T> {
        if 1 <= lit <= v.len() {
            Some(v[lit - 1].0)
        } else if 1 <= -lit <= v.len() {
            Some(v[-lit - 1].1)
        } else {
            None
        }
    }

    open spec fn val_defined(v: Seq<(T, T)>, lit: int) -> bool {
        true
    }

    open spec fn added(v: Seq<(T, T)>, lit: int, val: T) -> Seq<(T, T)> {
        if lit > 0 {
            v.update(lit - 1, (v[lit - 1].0.add_spec(val), v[lit - 1].1))
        } else {
            v.update(-lit - 1, (v[-lit - 1].0, v[-lit - 1].1.add_spec(val)))
        }
    }

    open spec fn add_defined(v: Seq<(T, T)>, lit: int, val: T) -> bool {
        true
    }

    proof fn covered(v: Seq<(T, T)>, lit: int) {
    }

    proof fn added_len(v: Seq<(T, T)>, lit: int, val: T) {
    }

    fn val(&self, lit: i32) -> (r: Option<T>) {
        if lit == 0 {
            return None;
        }
        let ix = literal_index(lit);
        if ix >= self.pos_weights.len() {
            None
        } else if lit > 0 {
            Some(self.pos_weights[ix].duplicate())
        } else {
            Some(self.neg_weights[ix].duplicate())
        }
    }

    fn len(&self) -> (n: usize) {
        self.pos_weights.len()
    }

    fn add(&mut self, lit: i32, val: &T) {
        let ix = literal_index(lit);
        if lit > 0 {
            let sum = self.pos_weights[ix].duplicate().add(val);
            self.pos_weights.set(ix, sum);
        } else {
            let sum = self.neg_weights[ix].duplicate().add(val);
            self.neg_weights.set(ix, sum);
        }
        assert(self@ =~= Self::added(old(self)@, lit as int, *val));
    }
}

/// Weights of the positive literals alone; a negative literal has the
/// complement of its variable's weight.
pub struct PosOnlyWeights<T: Ring> {
    weights: Vec<T>,
}

impl<T: Ring> View for PosOnlyWeights<T> {
    type V = Seq<T>;

    /// The weight of each variable's positive literal.
    closed spec fn view(&self) -> Seq<T> {
        self.weights@
    }
}

impl<T: Ring> PosOnlyWeights<T> {
    /// A table for `len` variables, every weight zero.
    pub fn new(len: usize) -> (w: Self)
        ensures
            w.inv(),
            w@ == Seq::new(len as nat, |i: int| T::zero_spec()),
    {
        let mut weights: Vec<T> = Vec::new();
        let mut i: usize = 0;
        while i < len
            invariant
                i <= len,
                weights@ == Seq::new(i as nat, |i: int| T::zero_spec()),
            decreases len - i,
        {
            weights.push(T::zero());
            i += 1;
        }
        PosOnlyWeights { weights }
    }

    /// The weights of the positive literals.
    pub fn into_vec(self) -> (r: Vec<T>)
        ensures
            r@ == self@,
    {
        self.weights
    }

    /// The table with the given weights of the positive literals.
    pub fn from_vec(weights: Vec<T>) -> (w: Self)
        ensures
            w.inv(),
            w@ == weights@,
    {
        PosOnlyWeights { weights }
    }
}

impl<T: Ring> Weights<T> for PosOnlyWeights<T> {
    open spec fn inv(&self) -> bool {
        true
    }

    open spec fn len_of(v: Seq<T>) -> nat {
        v.len()
    }

    open spec fn val_of(v: Seq<T>, lit: int) -> Option<T> {
        if 1 <= lit <= v.len() {
            Some(v[lit - 1])
        } else if 1 <= -lit <= v.len() {
            Some(v[-lit - 1].negate_spec())
        } else {
            None
        }
    }

    /// The complement must exist where a negative literal is read.
    open spec fn val_defined(v: Seq<T>, lit: int) -> bool {
        1 <= -lit <= v.len() ==> v[-lit - 1].negate_defined()
    }

    open spec fn added(v: Seq<T>, lit: int, val: T) -> Seq<T> {
        if lit > 0 {
            v.update(lit - 1, v[lit - 1].add_spec(val))
        } else {
            v.update(-lit - 1, v[-lit - 1].sub_spec(val))
        }
    }

    /// The difference must exist where a negative literal is accumulated.
    open spec fn add_defined(v: Seq<T>, lit: int, val: T) -> bool {
        1 <= -lit <= v.len() ==> v[-lit - 1].sub_defined(val)
    }

    proof fn covered(v: Seq<T>, lit: int) {
    }

    proof fn added_len(v: Seq<T>, lit: int, val: T) {
    }

    fn val(&self, lit: i32) -> (r: Option<T>) {
        if lit == 0 {
            return None;
        }
        let ix = literal_index(lit);
        if ix >= self.weights.len() {
            None
        } else if lit > 0 {
            Some(self.weights[ix].duplicate())
        } else {
            Some(self.weights[ix].negate())
        }
    }

    fn len(&self) -> (n: usize) {
        self.weights.len()
    }

    fn add(&mut self, lit: i32, val: &T) {
        let ix = literal_index(lit);
        if lit > 0 {
            let sum = self.weights[ix].duplicate().add(val);
            self.weights.set(ix, sum);
        } else {
            let difference = self.weights[ix].duplicate().sub(val);
            self.weights.set(ix, difference);
        }
    }
}

} // verus!
