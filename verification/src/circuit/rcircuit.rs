//! Propositional formulas as trees with shared subtrees.
use std::rc::Rc;
use vstd::prelude::*;
use crate::circuit::compile::{clause_literals, dimacs_text, to_dimacs};
use crate::circuit::text::ascii;
use crate::circuit::tseitin::tseitin_transform;
use crate::circuit::{lit_var, literal_variable};

verus! {

/// A node of a formula. A subtree may be shared by several parents.
#[derive(Debug, Hash, PartialEq, Eq)]
pub enum RNode {
    Prod(Vec<Rc<RNode>>),
    Sum(Vec<Rc<RNode>>),
    Neg(Rc<RNode>),
    Val(i32),
    One,
    Zero,
}

/// The formula that a tree of nodes stands for.
pub enum Formula {
    /// The conjunction of some formulas.
    Prod(Seq<Formula>),
    /// The disjunction of some formulas.
    Sum(Seq<Formula>),
    /// The negation of a formula.
    Neg(Box<Formula>),
    /// A literal: a variable, or with a minus sign its negation.
    Val(i32),
    /// Truth.
    One,
    /// Falsehood.
    Zero,
}

/// The formula that a node stands for.
pub open spec fn formula_of(node: RNode) -> Formula
    decreases node,
{
    match node {
        RNode::Prod(vs) => Formula::Prod(formulas_of(vs@)),
        RNode::Sum(vs) => Formula::Sum(formulas_of(vs@)),
        RNode::Neg(v) => Formula::Neg(Box::new(formula_of(*v))),
        RNode::Val(l) => Formula::Val(l),
        RNode::One => Formula::One,
        RNode::Zero => Formula::Zero,
    }
}

/// The formulas that some nodes stand for.
pub open spec fn formulas_of(nodes: Seq<Rc<RNode>>) -> Seq<Formula>
    decreases nodes,
{
    Seq::new(
        nodes.len(),
        |i: int|
            if 0 <= i < nodes.len() {
                formula_of(*nodes[i])
            } else {
                Formula::Zero
            },
    )
}

impl View for RNode {
    type V = Formula;

    open spec fn view(&self) -> Formula {
        formula_of(*self)
    }
}

impl Formula {
    /// A literal or a constant.
    pub open spec fn is_leaf(self) -> bool {
        self is Val || self is One || self is Zero
    }

    /// Every formula of the sequence is a leaf.
    pub open spec fn all_leaves(fs: Seq<Formula>) -> bool {
        forall|i: int| 0 <= i < fs.len() ==> (#[trigger] fs[i]).is_leaf()
    }

    /// Every formula of the sequence is a literal.
    pub open spec fn all_literals(fs: Seq<Formula>) -> bool {
        forall|i: int| 0 <= i < fs.len() ==> (#[trigger] fs[i]) is Val
    }

    /// A disjunction of leaves.
    pub open spec fn is_clause(self) -> bool {
        self is Sum && Self::all_leaves(self->Sum_0)
    }

    /// A conjunction of leaves.
    pub open spec fn is_term(self) -> bool {
        self is Prod && Self::all_leaves(self->Prod_0)
    }

    /// A literal, or a disjunction of literals.
    pub open spec fn is_literal_clause(self) -> bool {
        self is Val || (self is Sum && Self::all_literals(self->Sum_0))
    }

    /// A literal, or a conjunction of literals.
    pub open spec fn is_literal_term(self) -> bool {
        self is Val || (self is Prod && Self::all_literals(self->Prod_0))
    }

    /// Every formula of the sequence is a literal or a disjunction of literals.
    pub open spec fn all_literal_clauses(fs: Seq<Formula>) -> bool {
        forall|i: int| 0 <= i < fs.len() ==> (#[trigger] fs[i]).is_literal_clause()
    }

    /// Every formula of the sequence is a literal or a conjunction of literals.
    pub open spec fn all_literal_terms(fs: Seq<Formula>) -> bool {
        forall|i: int| 0 <= i < fs.len() ==> (#[trigger] fs[i]).is_literal_term()
    }

    /// Conjunctive normal form: a conjunction of literals and of disjunctions of literals.
    pub open spec fn is_cnf(self) -> bool {
        self is Prod && Self::all_literal_clauses(self->Prod_0)
    }

    /// Disjunctive normal form: a disjunction of literals and of conjunctions of literals.
    pub open spec fn is_dnf(self) -> bool {
        self is Sum && Self::all_literal_terms(self->Sum_0)
    }

    /// The largest variable of the formula, 0 if it has no literal.
    pub open spec fn nb_vars(self) -> int
        decreases self,
    {
        match self {
            Formula::Prod(fs) => Self::max_vars(fs, fs.len() as int),
            Formula::Sum(fs) => Self::max_vars(fs, fs.len() as int),
            Formula::Neg(f) => f.nb_vars(),
            Formula::Val(l) => lit_var(l as int),
            _ => 0,
        }
    }

    /// The largest variable of the first `n` formulas, 0 if they have no literal.
    pub open spec fn max_vars(fs: Seq<Formula>, n: int) -> int
        decreases fs, n,
    {
        if n <= 0 || n > fs.len() {
            0
        } else {
            let rest = Self::max_vars(fs, n - 1);
            let last = fs[n - 1].nb_vars();
            if last > rest {
                last
            } else {
                rest
            }
        }
    }

    /// The direct parts of the formula; a leaf has none.
    pub open spec fn children(self) -> Seq<Formula> {
        match self {
            Formula::Prod(fs) => fs,
            Formula::Sum(fs) => fs,
            Formula::Neg(f) => seq![*f],
            _ => Seq::empty(),
        }
    }

    /// The formula under the literals `lits`: a literal among them becomes
    /// truth, a literal whose negation is among them becomes falsehood, and
    /// everything else keeps its shape.
    pub open spec fn condition(self, lits: Seq<i32>) -> Formula
        decreases self,
    {
        match self {
            Formula::Val(v) => if lits.contains(v) {
                Formula::One
            } else if v > i32::MIN && lits.contains((-v) as i32) {
                Formula::Zero
            } else {
                self
            },
            Formula::Sum(fs) => Formula::Sum(Self::condition_all(fs, lits)),
            Formula::Prod(fs) => Formula::Prod(Self::condition_all(fs, lits)),
            Formula::Neg(f) => Formula::Neg(Box::new(f.condition(lits))),
            _ => self,
        }
    }

    /// Each formula of the sequence under the literals `lits`.
    pub open spec fn condition_all(fs: Seq<Formula>, lits: Seq<i32>) -> Seq<Formula>
        decreases fs,
    {
        Seq::new(
            fs.len(),
            |i: int|
                if 0 <= i < fs.len() {
                    fs[i].condition(lits)
                } else {
                    Formula::Zero
                },
        )
    }

    /// The formulas of the sequence other than the constant `unit`, in their order.
    pub open spec fn without(fs: Seq<Formula>, unit: Formula) -> Seq<Formula>
        decreases fs.len(),
    {
        if fs.len() == 0 {
            Seq::empty()
        } else if fs.last() == unit {
            Self::without(fs.drop_last(), unit)
        } else {
            Self::without(fs.drop_last(), unit).push(fs.last())
        }
    }

    /// The disjunction of simplified formulas, simplified: falsehood is left
    /// out; with truth among them it is truth; with none left it is
    /// falsehood; a single one stands for itself.
    pub open spec fn collapse_sum(fs: Seq<Formula>) -> Formula {
        let kept = Self::without(fs, Formula::Zero);
        if kept.contains(Formula::One) {
            Formula::One
        } else if kept.len() == 0 {
            Formula::Zero
        } else if kept.len() == 1 {
            kept[0]
        } else {
            Formula::Sum(kept)
        }
    }

    /// The conjunction of simplified formulas, simplified: truth is left out;
    /// with falsehood among them it is falsehood; with none left it is truth;
    /// a single one stands for itself.
    pub open spec fn collapse_prod(fs: Seq<Formula>) -> Formula {
        let kept = Self::without(fs, Formula::One);
        if kept.contains(Formula::Zero) {
            Formula::Zero
        } else if kept.len() == 0 {
            Formula::One
        } else if kept.len() == 1 {
            kept[0]
        } else {
            Formula::Prod(kept)
        }
    }

    /// The formula without redundant parts, from the leaves up.
    pub open spec fn simplify(self) -> Formula
        decreases self,
    {
        match self {
            Formula::Sum(fs) => Self::collapse_sum(Self::simplify_all(fs)),
            Formula::Prod(fs) => Self::collapse_prod(Self::simplify_all(fs)),
            Formula::Neg(f) => Formula::Neg(Box::new(f.simplify())),
            _ => self,
        }
    }

    /// Each formula of the sequence, simplified.
    pub open spec fn simplify_all(fs: Seq<Formula>) -> Seq<Formula>
        decreases fs,
    {
        Seq::new(
            fs.len(),
            |i: int|
                if 0 <= i < fs.len() {
                    fs[i].simplify()
                } else {
                    Formula::Zero
                },
        )
    }

    /// The negation: a literal changes its sign, a constant becomes the
    /// other constant, a negation loses its sign, and anything else gains one.
    pub open spec fn negate(self) -> Formula {
        match self {
            Formula::Val(l) => Formula::Val((-l) as i32),
            Formula::Neg(f) => *f,
            Formula::One => Formula::Zero,
            Formula::Zero => Formula::One,
            _ => Formula::Neg(Box::new(self)),
        }
    }
}

/// The largest variable of a formula is not negative.
pub proof fn lemma_nb_vars_nonnegative(f: Formula)
    ensures
        f.nb_vars() >= 0,
    decreases f,
{
    match f {
        Formula::Prod(fs) => {
            lemma_max_vars_nonnegative(fs, fs.len() as int);
        },
        Formula::Sum(fs) => {
            lemma_max_vars_nonnegative(fs, fs.len() as int);
        },
        Formula::Neg(g) => {
            lemma_nb_vars_nonnegative(*g);
        },
        _ => {},
    }
}

/// The largest variable of some formulas is not negative.
pub proof fn lemma_max_vars_nonnegative(fs: Seq<Formula>, n: int)
    ensures
        Formula::max_vars(fs, n) >= 0,
    decreases fs, n,
{
    if 0 < n <= fs.len() {
        lemma_max_vars_nonnegative(fs, n - 1);
    }
}

/// `Rc::clone` of the standard library: one more handle to the same node.
#[verifier::external_body]
fn share(node: &Rc<RNode>) -> (r: Rc<RNode>)
    ensures
        r == *node,
{
    Rc::clone(node)
}

impl RNode {
    /// Whether the node is a literal or a constant.
    pub fn is_leaf(&self) -> (b: bool)
        ensures
            b == self@.is_leaf(),
    {
        match self {
            RNode::Val(_) => true,
            RNode::Zero => true,
            RNode::One => true,
            _ => false,
        }
    }

    /// Whether the node is the constant truth.
    pub fn is_true(&self) -> (b: bool)
        ensures
            b == (self@ is One),
    {
        match self {
            RNode::One => true,
            _ => false,
        }
    }

    /// Whether the node is the constant falsehood.
    pub fn is_false(&self) -> (b: bool)
        ensures
            b == (self@ is Zero),
    {
        match self {
            RNode::Zero => true,
            _ => false,
        }
    }

    fn is_literal(&self) -> (b: bool)
        ensures
            b == (self@ is Val),
    {
        match self {
            RNode::Val(_) => true,
            _ => false,
        }
    }

    /// Whether the node is a disjunction of leaves.
    pub fn is_clause(&self) -> (b: bool)
        ensures
            b == self@.is_clause(),
    {
        match self {
            RNode::Sum(vs) => {
                let b = Self::all_leaves(vs);
                assert(self@ == Formula::Sum(formulas_of(vs@)));
                b
            },
            _ => false,
        }
    }

    /// Whether the node is a conjunction of leaves.
    pub fn is_term(&self) -> (b: bool)
        ensures
            b == self@.is_term(),
    {
        match self {
            RNode::Prod(vs) => {
                let b = Self::all_leaves(vs);
                assert(self@ == Formula::Prod(formulas_of(vs@)));
                b
            },
            _ => false,
        }
    }

    fn all_leaves(vs: &Vec<Rc<RNode>>) -> (b: bool)
        ensures
            b == Formula::all_leaves(formulas_of(vs@)),
    {
        let mut i: usize = 0;
        while i < vs.len()
            invariant
                i <= vs.len(),
                forall|k: int| 0 <= k < i ==> (#[trigger] formulas_of(vs@)[k]).is_leaf(),
            decreases vs.len() - i,
        {
            if !vs[i].is_leaf() {
                assert(!formulas_of(vs@)[i as int].is_leaf());
                return false;
            }
            i += 1;
        }
        true
    }

    fn all_literal_clauses(vs: &Vec<Rc<RNode>>) -> (b: bool)
        ensures
            b == Formula::all_literal_clauses(formulas_of(vs@)),
    {
        let mut i: usize = 0;
        while i < vs.len()
            invariant
                i <= vs.len(),
                forall|k: int| 0 <= k < i ==> (#[trigger] formulas_of(vs@)[k]).is_literal_clause(),
            decreases vs.len() - i,
        {
            if !vs[i].is_literal_clause() {
                assert(!formulas_of(vs@)[i as int].is_literal_clause());
                return false;
            }
            i += 1;
        }
        true
    }

    fn all_literal_terms(vs: &Vec<Rc<RNode>>) -> (b: bool)
        ensures
            b == Formula::all_literal_terms(formulas_of(vs@)),
    {
        let mut i: usize = 0;
        while i < vs.len()
            invariant
                i <= vs.len(),
                forall|k: int| 0 <= k < i ==> (#[trigger] formulas_of(vs@)[k]).is_literal_term(),
            decreases vs.len() - i,
        {
            if !vs[i].is_literal_term() {
                assert(!formulas_of(vs@)[i as int].is_literal_term());
                return false;
            }
            i += 1;
        }
        true
    }

    fn all_literals(vs: &Vec<Rc<RNode>>) -> (b: bool)
        ensures
            b == Formula::all_literals(formulas_of(vs@)),
    {
        let mut i: usize = 0;
        while i < vs.len()
            invariant
                i <= vs.len(),
                forall|k: int| 0 <= k < i ==> (#[trigger] formulas_of(vs@)[k]) is Val,
            decreases vs.len() - i,
        {
            if !vs[i].is_literal() {
                assert(!(formulas_of(vs@)[i as int] is Val));
                return false;
            }
            i += 1;
        }
        true
    }

    fn is_literal_clause(&self) -> (b: bool)
        ensures
            b == self@.is_literal_clause(),
    {
        match self {
            RNode::Val(_) => true,
            RNode::Sum(vs) => Self::all_literals(vs),
            _ => false,
        }
    }

    fn is_literal_term(&self) -> (b: bool)
        ensures
            b == self@.is_literal_term(),
    {
        match self {
            RNode::Val(_) => true,
            RNode::Prod(vs) => Self::all_literals(vs),
            _ => false,
        }
    }

    /// Whether the node is in conjunctive normal form.
    pub fn is_cnf(&self) -> (b: bool)
        ensures
            b == self@.is_cnf(),
    {
        match self {
            RNode::Prod(vs) => {
                let b = Self::all_literal_clauses(vs);
                assert(self@ == Formula::Prod(formulas_of(vs@)));
                b
            },
            _ => false,
        }
    }

    /// Whether the node is in disjunctive normal form.
    pub fn is_dnf(&self) -> (b: bool)
        ensures
            b == self@.is_dnf(),
    {
        match self {
            RNode::Sum(vs) => {
                let b = Self::all_literal_terms(vs);
                assert(self@ == Formula::Sum(formulas_of(vs@)));
                b
            },
            _ => false,
        }
    }

    fn max_nb_vars(vs: &Vec<Rc<RNode>>) -> (n: u32)
        ensures
            n == Formula::max_vars(formulas_of(vs@), vs@.len() as int),
        decreases vs,
    {
        let mut best: u32 = 0;
        let mut i: usize = 0;
        while i < vs.len()
            invariant
                i <= vs.len(),
                best == Formula::max_vars(formulas_of(vs@), i as int),
            decreases vs.len() - i,
        {
            let v = vs[i].nb_vars();
            if v > best {
                best = v;
            }
            i += 1;
        }
        best
    }

    /// The largest variable of the formula, 0 if it has no literal.
    pub fn nb_vars(&self) -> (n: u32)
        ensures
            n == self@.nb_vars(),
        decreases self,
    {
        match self {
            RNode::Val(v) => literal_variable(*v),
            RNode::Sum(vs) => Self::max_nb_vars(vs),
            RNode::Prod(vs) => Self::max_nb_vars(vs),
            RNode::Neg(v) => v.nb_vars(),
            _ => 0,
        }
    }

    /// The direct parts of the node, shared with it; a leaf has none.
    pub fn children(&self) -> (r: Vec<Rc<RNode>>)
        ensures
            formulas_of(r@) == self@.children(),
    {
        match self {
            RNode::Sum(vs) => Self::share_all(vs),
            RNode::Prod(vs) => Self::share_all(vs),
            RNode::Neg(v) => {
                let mut r: Vec<Rc<RNode>> = Vec::new();
                r.push(share(v));
                assert(formulas_of(r@) =~= self@.children());
                r
            },
            _ => {
                let r: Vec<Rc<RNode>> = Vec::new();
                assert(formulas_of(r@) =~= self@.children());
                r
            },
        }
    }

    fn share_all(vs: &Vec<Rc<RNode>>) -> (r: Vec<Rc<RNode>>)
        ensures
            r@ == vs@,
    {
        let mut r: Vec<Rc<RNode>> = Vec::new();
        let mut i: usize = 0;
        while i < vs.len()
            invariant
                i <= vs.len(),
                r@ == vs@.take(i as int),
            decreases vs.len() - i,
        {
            r.push(share(&vs[i]));
            assert(r@ =~= vs@.take(i + 1));
            i += 1;
        }
        assert(vs@.take(vs@.len() as int) =~= vs@);
        r
    }

    /// The literal of a literal node.
    pub fn value(&self) -> (v: i32)
        requires
            self@ is Val,
        ensures
            self@ == Formula::Val(v),
    {
        match self {
            RNode::Val(v) => *v,
            _ => 0,
        }
    }

    /// The negation of the node: see `Formula::negate`.
    pub fn negate(self: Rc<Self>) -> (r: Rc<RNode>)
        requires
            self@ != Formula::Val(i32::MIN),
        ensures
            r@ == self@.negate(),
    {
        match &*self {
            RNode::Val(v) => Rc::new(RNode::Val(-*v)),
            RNode::Neg(v) => share(v),
            RNode::One => Rc::new(RNode::Zero),
            RNode::Zero => Rc::new(RNode::One),
            _ => Rc::new(RNode::Neg(self)),
        }
    }
    /// The node under the literals `lits`: see `Formula::condition`.
    pub fn condition(self: Rc<Self>, lits: &Vec<i32>) -> (r: Rc<RNode>)
        ensures
            r@ == self@.condition(lits@),
    {
        condition(self, lits)
    }

    /// The node without redundant parts: see `Formula::simplify`.
    pub fn simplify(self: Rc<Self>) -> (r: Rc<RNode>)
        ensures
            r@ == self@.simplify(),
        decreases self,
    {
        match &*self {
            RNode::Sum(vs) => simplify_or(vs),
            RNode::Prod(vs) => simplify_and(vs),
            RNode::Neg(v) => Rc::new(RNode::Neg(share(v).simplify())),
            _ => self,
        }
    }
}

/// Whether a literal is among some literals.
fn contains_literal(lits: &Vec<i32>, lit: i32) -> (b: bool)
    ensures
        b == lits@.contains(lit),
{
    let mut i: usize = 0;
    while i < lits.len()
        invariant
            i <= lits.len(),
            forall|k: int| 0 <= k < i ==> lits@[k] != lit,
        decreases lits.len() - i,
    {
        if lits[i] == lit {
            return true;
        }
        i += 1;
    }
    false
}

/// The simplified children of a node that are not the constant `unit`.
fn simplify_children(children: &Vec<Rc<RNode>>, drop_true: bool) -> (kept: Vec<Rc<RNode>>)
    ensures
        formulas_of(kept@) == Formula::without(
            Formula::simplify_all(formulas_of(children@)),
            if drop_true {
                Formula::One
            } else {
                Formula::Zero
            },
        ),
    decreases children, 0int,
{
    let ghost unit = if drop_true {
        Formula::One
    } else {
        Formula::Zero
    };
    let ghost all = Formula::simplify_all(formulas_of(children@));
    let mut kept: Vec<Rc<RNode>> = Vec::new();
    let mut i: usize = 0;
    assert(all.take(0) =~= Seq::<Formula>::empty());
    assert(formulas_of(kept@) =~= Seq::<Formula>::empty());
    while i < children.len()
        invariant
            i <= children.len(),
            all == Formula::simplify_all(formulas_of(children@)),
            unit == (if drop_true {
                Formula::One
            } else {
                Formula::Zero
            }),
            formulas_of(kept@) == Formula::without(all.take(i as int), unit),
        decreases children.len() - i,
    {
        let c = share(&children[i]).simplify();
        assert(all.take(i + 1).drop_last() =~= all.take(i as int));
        assert(all.take(i + 1).last() == c@);
        let unwanted = if drop_true {
            c.is_true()
        } else {
            c.is_false()
        };
        if !unwanted {
            let ghost before = formulas_of(kept@);
            kept.push(c);
            assert(formulas_of(kept@) =~= before.push(c@));
        }
        i += 1;
    }
    assert(all.take(all.len() as int) =~= all);
    kept
}

/// Whether the constant truth, or the constant falsehood, is among some nodes.
fn contains_constant(nodes: &Vec<Rc<RNode>>, truth: bool) -> (b: bool)
    ensures
        b == formulas_of(nodes@).contains(
            if truth {
                Formula::One
            } else {
                Formula::Zero
            },
        ),
{
    let ghost unit = if truth {
        Formula::One
    } else {
        Formula::Zero
    };
    let mut i: usize = 0;
    while i < nodes.len()
        invariant
            i <= nodes.len(),
            unit == (if truth {
                Formula::One
            } else {
                Formula::Zero
            }),
            forall|k: int| 0 <= k < i ==> formulas_of(nodes@)[k] != unit,
        decreases nodes.len() - i,
    {
        let found = if truth {
            nodes[i].is_true()
        } else {
            nodes[i].is_false()
        };
        if found {
            assert(formulas_of(nodes@)[i as int] == unit);
            return true;
        }
        i += 1;
    }
    false
}

/// The disjunction of some nodes, simplified: see `Formula::collapse_sum`.
fn simplify_or(children: &Vec<Rc<RNode>>) -> (r: Rc<RNode>)
    ensures
        r@ == Formula::collapse_sum(Formula::simplify_all(formulas_of(children@))),
    decreases children, 1int,
{
    let mut kept = simplify_children(children, false);
    if contains_constant(&kept, true) {
        return Rc::new(RNode::One);
    }
    if kept.len() == 0 {
        Rc::new(RNode::Zero)
    } else if kept.len() == 1 {
        let ghost only = formulas_of(kept@)[0];
        let r = kept.pop().unwrap();
        assert(r@ == only);
        r
    } else {
        Rc::new(RNode::Sum(kept))
    }
}

/// The conjunction of some nodes, simplified: see `Formula::collapse_prod`.
fn simplify_and(children: &Vec<Rc<RNode>>) -> (r: Rc<RNode>)
    ensures
        r@ == Formula::collapse_prod(Formula::simplify_all(formulas_of(children@))),
    decreases children, 1int,
{
    let mut kept = simplify_children(children, true);
    if contains_constant(&kept, false) {
        return Rc::new(RNode::Zero);
    }
    if kept.len() == 0 {
        Rc::new(RNode::One)
    } else if kept.len() == 1 {
        let ghost only = formulas_of(kept@)[0];
        let r = kept.pop().unwrap();
        assert(r@ == only);
        r
    } else {
        Rc::new(RNode::Prod(kept))
    }
}

/// Each of some nodes under the literals `lits`.
fn condition_all(nodes: &Vec<Rc<RNode>>, lits: &Vec<i32>) -> (r: Vec<Rc<RNode>>)
    ensures
        formulas_of(r@) == Formula::condition_all(formulas_of(nodes@), lits@),
    decreases nodes,
{
    let mut r: Vec<Rc<RNode>> = Vec::new();
    let mut i: usize = 0;
    while i < nodes.len()
        invariant
            i <= nodes.len(),
            r@.len() == i,
            forall|k: int|
                0 <= k < i ==> (#[trigger] formulas_of(r@)[k]) == formulas_of(nodes@)[k].condition(
                    lits@,
                ),
        decreases nodes.len() - i,
    {
        let c = condition(share(&nodes[i]), lits);
        let ghost before = formulas_of(r@);
        r.push(c);
        assert forall|k: int| 0 <= k < i + 1 implies (#[trigger] formulas_of(r@)[k]) == formulas_of(
            nodes@,
        )[k].condition(lits@) by {
            if k < i {
                assert(formulas_of(r@)[k] == before[k]);
            }
        }
        i += 1;
    }
    assert(formulas_of(r@) =~= Formula::condition_all(formulas_of(nodes@), lits@));
    r
}

/// The node under the literals `lits`: see `Formula::condition`.
fn condition(node: Rc<RNode>, lits: &Vec<i32>) -> (r: Rc<RNode>)
    ensures
        r@ == node@.condition(lits@),
    decreases node,
{
    match &*node {
        RNode::Val(v) => {
            let lit = *v;
            if contains_literal(lits, lit) {
                Rc::new(RNode::One)
            } else if lit > i32::MIN && contains_literal(lits, -lit) {
                Rc::new(RNode::Zero)
            } else {
                node
            }
        },
        RNode::Sum(vs) => Rc::new(RNode::Sum(condition_all(vs, lits))),
        RNode::Prod(vs) => Rc::new(RNode::Prod(condition_all(vs, lits))),
        RNode::Neg(v) => Rc::new(RNode::Neg(condition(share(v), lits))),
        _ => node,
    }
}

/// A formula as its users hold it: a handle to the root of a tree of nodes.
#[derive(Debug, PartialEq, Eq)]
pub struct RCircuit {
    node: Rc<RNode>,
}

impl View for RCircuit {
    type V = Formula;

    closed spec fn view(&self) -> Formula {
        self.node@
    }
}

impl From<RNode> for RCircuit {
    fn from(node: RNode) -> (r: Self)
        ensures
            r@ == node@,
    {
        RCircuit { node: Rc::new(node) }
    }
}

impl vstd::std_specs::convert::FromSpecImpl<RNode> for RCircuit {
    open spec fn obeys_from_spec() -> bool {
        true
    }

    closed spec fn from_spec(node: RNode) -> Self {
        RCircuit { node: Rc::new(node) }
    }
}

/// The formula is not in conjunctive normal form.
#[derive(Debug, Clone, Copy, PartialEq, Eq, Structural)]
pub struct NotCnf;

/// A vector of two handles.
fn two(first: &Rc<RNode>, second: &Rc<RNode>) -> (r: Vec<Rc<RNode>>)
    ensures
        formulas_of(r@) == seq![first@, second@],
{
    let mut r: Vec<Rc<RNode>> = Vec::new();
    r.push(share(first));
    r.push(share(second));
    assert(formulas_of(r@) =~= seq![first@, second@]);
    r
}

/// The literals of the clause that a node stands for.
fn literals_of_clause(node: &RNode) -> (r: Vec<i32>)
    requires
        node@.is_literal_clause(),
    ensures
        r@ == clause_literals(node@),
{
    let mut r: Vec<i32> = Vec::new();
    match node {
        RNode::Val(v) => {
            r.push(*v);
            assert(r@ =~= clause_literals(node@));
        },
        RNode::Sum(vs) => {
            let ghost fs = formulas_of(vs@);
            let mut i: usize = 0;
            while i < vs.len()
                invariant
                    i <= vs.len(),
                    fs == formulas_of(vs@),
                    Formula::all_literals(fs),
                    r@ == clause_literals(Formula::Sum(fs)).take(i as int),
                decreases vs.len() - i,
            {
                assert(fs[i as int] is Val);
                r.push(vs[i].value());
                assert(r@ =~= clause_literals(Formula::Sum(fs)).take(i + 1));
                i += 1;
            }
            assert(clause_literals(Formula::Sum(fs)).take(fs.len() as int) =~= clause_literals(
                Formula::Sum(fs),
            ));
        },
        _ => {},
    }
    r
}

/// The clauses of a conjunctive normal form, each as its literals.
pub open spec fn clauses_of_cnf(f: Formula) -> Seq<Seq<i32>> {
    Seq::new(f->Prod_0.len(), |i: int| clause_literals(f->Prod_0[i]))
}

/// The sequences that a vector of vectors of literals holds.
pub open spec fn literal_seqs(v: Seq<Vec<i32>>) -> Seq<Seq<i32>> {
    Seq::new(v.len(), |i: int| v[i]@)
}

impl RCircuit {
    /// The root of the formula, shared with it.
    pub fn node(&self) -> (r: Rc<RNode>)
        ensures
            r@ == self@,
    {
        share(&self.node)
    }

    /// The largest variable of the formula, 0 if it has no literal.
    pub fn nb_vars(&self) -> (n: u32)
        ensures
            n == self@.nb_vars(),
    {
        self.node.nb_vars()
    }

    /// The conjunction of two formulas.
    pub fn __and__(&self, other: &RCircuit) -> (r: RCircuit)
        ensures
            r@ == Formula::Prod(seq![self@, other@]),
    {
        RCircuit { node: Rc::new(RNode::Prod(two(&self.node, &other.node))) }
    }

    /// The disjunction of two formulas.
    pub fn __or__(&self, other: &RCircuit) -> (r: RCircuit)
        ensures
            r@ == Formula::Sum(seq![self@, other@]),
    {
        RCircuit { node: Rc::new(RNode::Sum(two(&self.node, &other.node))) }
    }

    /// The negation of the formula: see `Formula::negate`.
    pub fn __invert__(&self) -> (r: RCircuit)
        requires
            self@ != Formula::Val(i32::MIN),
        ensures
            r@ == self@.negate(),
    {
        RCircuit { node: share(&self.node).negate() }
    }

    /// The literal of a formula that is a literal.
    pub fn __int__(&self) -> (v: i32)
        requires
            self@ is Val,
        ensures
            self@ == Formula::Val(v),
    {
        self.node.value()
    }

    /// Whether the formula is in conjunctive normal form.
    pub fn is_cnf(&self) -> (b: bool)
        ensures
            b == self@.is_cnf(),
    {
        self.node.is_cnf()
    }

    /// Whether the formula is in disjunctive normal form.
    pub fn is_dnf(&self) -> (b: bool)
        ensures
            b == self@.is_dnf(),
    {
        self.node.is_dnf()
    }

    /// The formula without redundant parts: see `Formula::simplify`.
    pub fn simplify(&self) -> (r: RCircuit)
        ensures
            r@ == self@.simplify(),
    {
        RCircuit { node: share(&self.node).simplify() }
    }

    /// The formula under some literals: see `Formula::condition`.
    pub fn condition(&self, lits: Vec<i32>) -> (r: RCircuit)
        ensures
            r@ == self@.condition(lits@),
    {
        RCircuit { node: share(&self.node).condition(&lits) }
    }

    /// The formula in conjunctive normal form: see `Formula::tseitin_cnf`.
    pub fn tseitin(&self, nb_vars: u32) -> (r: RCircuit)
        requires
            self@.transformable(nb_vars as int),
        ensures
            r@ == self@.tseitin_cnf(nb_vars as int),
    {
        RCircuit { node: tseitin_transform(share(&self.node), nb_vars) }
    }

    /// The clauses of the conjunctive normal form of the formula, with new
    /// variables from its own largest variable on.
    pub fn clauses(&self) -> (r: Vec<Vec<i32>>)
        requires
            self@.transformable(self@.nb_vars()),
        ensures
            literal_seqs(r@) == clauses_of_cnf(self@.tseitin_cnf(self@.nb_vars())),
    {
        let nb_vars = self.node.nb_vars();
        let cnf = self.tseitin(nb_vars);
        proof {
            crate::circuit::tseitin::lemma_tseitin_cnf_is_cnf(self@, nb_vars as int);
        }
        let mut r: Vec<Vec<i32>> = Vec::new();
        match &*cnf.node {
            RNode::Prod(vs) => {
                let ghost fs = formulas_of(vs@);
                let mut i: usize = 0;
                while i < vs.len()
                    invariant
                        i <= vs.len(),
                        fs == formulas_of(vs@),
                        Formula::all_literal_clauses(fs),
                        r@.len() == i,
                        forall|k: int| 0 <= k < i ==> (#[trigger] r@[k])@ == clause_literals(fs[k]),
                    decreases vs.len() - i,
                {
                    assert(fs[i as int].is_literal_clause());
                    r.push(literals_of_clause(&vs[i]));
                    i += 1;
                }
                assert(literal_seqs(r@) =~= clauses_of_cnf(cnf@));
            },
            _ => {},
        }
        r
    }

    /// The DIMACS text of the formula, if it is in conjunctive normal form.
    pub fn to_dimacs(&self) -> (r: Result<String, NotCnf>)
        ensures
            match r {
                Ok(text) => self@.is_cnf() && text@ == ascii(dimacs_text(self@))
                    && vstd::utf8::encode_utf8(text@) == dimacs_text(self@),
                Err(_) => !self@.is_cnf(),
            },
    {
        if self.node.is_cnf() {
            Ok(to_dimacs(share(&self.node)))
        } else {
            Err(NotCnf)
        }
    }
}

} // verus!
