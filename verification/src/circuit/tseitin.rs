//! The Tseitin transformation of a formula into conjunctive normal form.
use std::rc::Rc;
use vstd::prelude::*;
use crate::circuit::rcircuit::{formulas_of, Formula, RNode};

verus! {

/// What the transformation makes of a formula: the literal that stands for
/// it, the last variable in use, and the clauses that define the new variables.
pub struct Tseitin {
    pub var: int,
    pub next: int,
    pub clauses: Seq<Seq<int>>,
}

/// What the transformation makes of some formulas, one after the other.
pub struct TseitinAll {
    pub vars: Seq<int>,
    pub next: int,
    pub clauses: Seq<Seq<int>>,
}

/// The negations of some literals.
pub open spec fn negated(vars: Seq<int>) -> Seq<int> {
    Seq::new(vars.len(), |i: int| -vars[i])
}

/// The clauses that define `y` as the disjunction of `vars`: each of them
/// implies `y`, and `y` implies one of them.
pub open spec fn sum_clauses(vars: Seq<int>, y: int) -> Seq<Seq<int>> {
    Seq::new(vars.len(), |i: int| seq![y, -vars[i]]).push(vars.push(-y))
}

/// The clauses that define `y` as the conjunction of `vars`: `y` implies
/// each of them, and all of them imply `y`.
pub open spec fn prod_clauses(vars: Seq<int>, y: int) -> Seq<Seq<int>> {
    Seq::new(vars.len(), |i: int| seq![-y, vars[i]]).push(negated(vars).push(y))
}

/// The clauses that define `y` as the negation of `x`.
pub open spec fn neg_clauses(x: int, y: int) -> Seq<Seq<int>> {
    seq![seq![y, x], seq![-y, -x]]
}

impl Formula {
    /// The number of disjunctions, conjunctions and negations in the formula.
    pub open spec fn gate_count(self) -> nat
        decreases self,
    {
        match self {
            Formula::Prod(fs) => 1 + Self::gate_count_all(fs, fs.len() as int),
            Formula::Sum(fs) => 1 + Self::gate_count_all(fs, fs.len() as int),
            Formula::Neg(f) => 1 + f.gate_count(),
            _ => 0,
        }
    }

    /// The number of disjunctions, conjunctions and negations in the first `n` formulas.
    pub open spec fn gate_count_all(fs: Seq<Formula>, n: int) -> nat
        decreases fs, n,
    {
        if n <= 0 || n > fs.len() {
            0
        } else {
            Self::gate_count_all(fs, n - 1) + fs[n - 1].gate_count()
        }
    }

    /// The formula holds no constant, and each of its literals has a negation
    /// of 32 bits.
    pub open spec fn plain(self) -> bool
        decreases self,
    {
        match self {
            Formula::Prod(fs) => Self::all_plain(fs),
            Formula::Sum(fs) => Self::all_plain(fs),
            Formula::Neg(f) => f.plain(),
            Formula::Val(l) => l > i32::MIN,
            _ => false,
        }
    }

    /// Every formula of the sequence is plain.
    pub open spec fn all_plain(fs: Seq<Formula>) -> bool
        decreases fs,
    {
        forall|i: int| 0 <= i < fs.len() ==> (#[trigger] fs[i]).plain()
    }

    /// The transformation of a formula, where `next` is the last variable in
    /// use. A literal stands for itself. A disjunction, a conjunction and a
    /// negation get the variable after the last one in use, once their parts
    /// are transformed, and the clauses that define it.
    pub open spec fn tseitin(self, next: int) -> Tseitin
        decreases self,
    {
        match self {
            Formula::Val(k) => Tseitin { var: k as int, next, clauses: Seq::empty() },
            Formula::Neg(f) => {
                let part = f.tseitin(next);
                let y = part.next + 1;
                Tseitin { var: y, next: y, clauses: part.clauses + neg_clauses(part.var, y) }
            },
            Formula::Sum(fs) => {
                let parts = Self::tseitin_all(fs, fs.len() as int, next);
                let y = parts.next + 1;
                Tseitin { var: y, next: y, clauses: parts.clauses + sum_clauses(parts.vars, y) }
            },
            Formula::Prod(fs) => {
                let parts = Self::tseitin_all(fs, fs.len() as int, next);
                let y = parts.next + 1;
                Tseitin { var: y, next: y, clauses: parts.clauses + prod_clauses(parts.vars, y) }
            },
            _ => Tseitin { var: 0, next, clauses: Seq::empty() },
        }
    }

    /// The transformation of the first `n` formulas, one after the other.
    pub open spec fn tseitin_all(fs: Seq<Formula>, n: int, next: int) -> TseitinAll
        decreases fs, n,
    {
        if n <= 0 || n > fs.len() {
            TseitinAll { vars: Seq::empty(), next, clauses: Seq::empty() }
        } else {
            let before = Self::tseitin_all(fs, n - 1, next);
            let part = fs[n - 1].tseitin(before.next);
            TseitinAll {
                vars: before.vars.push(part.var),
                next: part.next,
                clauses: before.clauses + part.clauses,
            }
        }
    }

    /// The conjunctive normal form with the given clauses.
    pub open spec fn of_clauses(clauses: Seq<Seq<int>>) -> Formula {
        Formula::Prod(
            Seq::new(
                clauses.len(),
                |i: int|
                    Formula::Sum(
                        Seq::new(clauses[i].len(), |j: int| Formula::Val(clauses[i][j] as i32)),
                    ),
            ),
        )
    }

    /// The formula in conjunctive normal form: itself if it is in that form,
    /// else the clauses of its transformation, with new variables from
    /// `nb_vars + 1` on, and the clause that states its own literal.
    /// Whether the formula can be brought into conjunctive normal form with
    /// new variables from `nb_vars + 1` on: it is in that form already, or it
    /// is plain and the new variables fit in 32 bits.
    pub open spec fn transformable(self, nb_vars: int) -> bool {
        self.is_cnf() || (self.plain() && nb_vars + self.gate_count() <= i32::MAX)
    }

    pub open spec fn tseitin_cnf(self, nb_vars: int) -> Formula {
        if self.is_cnf() {
            self
        } else {
            let whole = self.tseitin(nb_vars);
            Self::of_clauses(whole.clauses.push(seq![whole.var]))
        }
    }
}

/// The transformation uses one new variable for each gate of the formula.
pub proof fn lemma_tseitin_next(f: Formula, next: int)
    ensures
        f.tseitin(next).next == next + f.gate_count(),
    decreases f,
{
    match f {
        Formula::Neg(g) => {
            lemma_tseitin_next(*g, next);
        },
        Formula::Sum(fs) => {
            lemma_tseitin_all_next(fs, fs.len() as int, next);
        },
        Formula::Prod(fs) => {
            lemma_tseitin_all_next(fs, fs.len() as int, next);
        },
        _ => {},
    }
}

/// The transformation uses one new variable for each gate of the formulas.
pub proof fn lemma_tseitin_all_next(fs: Seq<Formula>, n: int, next: int)
    ensures
        Formula::tseitin_all(fs, n, next).next == next + Formula::gate_count_all(fs, n),
        0 <= n <= fs.len() ==> Formula::tseitin_all(fs, n, next).vars.len() == n,
    decreases fs, n,
{
    if 0 < n <= fs.len() {
        lemma_tseitin_all_next(fs, n - 1, next);
        lemma_tseitin_next(fs[n - 1], Formula::tseitin_all(fs, n - 1, next).next);
    }
}

/// The transformed formula is in conjunctive normal form.
pub proof fn lemma_tseitin_cnf_is_cnf(f: Formula, nb_vars: int)
    ensures
        f.tseitin_cnf(nb_vars).is_cnf(),
{
    if !f.is_cnf() {
        let whole = f.tseitin(nb_vars);
        let clauses = whole.clauses.push(seq![whole.var]);
        let fs = Formula::of_clauses(clauses)->Prod_0;
        assert forall|i: int| 0 <= i < fs.len() implies (#[trigger] fs[i]).is_literal_clause() by {
            assert(Formula::all_literals(fs[i]->Sum_0));
        }
    }
}

/// The clauses that a vector of clauses holds.
pub open spec fn clauses_of(clauses: Seq<Vec<i32>>) -> Seq<Seq<int>> {
    Seq::new(clauses.len(), |i: int| literals_of(clauses[i]@))
}

/// The literals that a vector of literals holds.
pub open spec fn literals_of(lits: Seq<i32>) -> Seq<int> {
    Seq::new(lits.len(), |j: int| lits[j] as int)
}

/// The gates of the first formulas are among the gates of all of them.
pub proof fn lemma_gate_count_all_grows(fs: Seq<Formula>, n: int, m: int)
    requires
        0 <= n <= m <= fs.len(),
    ensures
        Formula::gate_count_all(fs, n) <= Formula::gate_count_all(fs, m),
    decreases m,
{
    if n < m {
        lemma_gate_count_all_grows(fs, n, m - 1);
    }
}

/// Appends one clause.
fn push_clause(clauses: &mut Vec<Vec<i32>>, clause: Vec<i32>)
    ensures
        clauses_of(final(clauses)@) == clauses_of(old(clauses)@).push(literals_of(clause@)),
{
    let ghost before = clauses_of(clauses@);
    clauses.push(clause);
    assert(clauses_of(clauses@) =~= before.push(literals_of(clause@)));
}

/// A clause of two literals.
fn pair(a: i32, b: i32) -> (clause: Vec<i32>)
    ensures
        literals_of(clause@) == seq![a as int, b as int],
{
    let mut clause: Vec<i32> = Vec::new();
    clause.push(a);
    clause.push(b);
    assert(literals_of(clause@) =~= seq![a as int, b as int]);
    clause
}

/// The transformation of some nodes, one after the other: the literals
/// that stand for them. Their clauses are appended to `clauses`.
fn tseitin_children(
    children: &Vec<Rc<RNode>>,
    next_var: &mut i32,
    clauses: &mut Vec<Vec<i32>>,
) -> (vars: Vec<i32>)
    requires
        Formula::all_plain(formulas_of(children@)),
        0 <= *old(next_var),
        *old(next_var) + Formula::gate_count_all(formulas_of(children@), children@.len() as int)
            <= i32::MAX,
    ensures
        ({
            let parts = Formula::tseitin_all(
                formulas_of(children@),
                children@.len() as int,
                *old(next_var) as int,
            );
            &&& literals_of(vars@) == parts.vars
            &&& *final(next_var) == parts.next
            &&& clauses_of(final(clauses)@) == clauses_of(old(clauses)@) + parts.clauses
        }),
        forall|k: int| 0 <= k < vars@.len() ==> vars@[k] > i32::MIN,
        *old(next_var) <= *final(next_var),
    decreases children,
{
    let ghost fs = formulas_of(children@);
    let ghost start = *next_var as int;
    let ghost given = clauses_of(clauses@);
    let mut vars: Vec<i32> = Vec::new();
    let mut i: usize = 0;
    assert(literals_of(vars@) =~= Seq::<int>::empty());
    assert(given + Seq::<Seq<int>>::empty() =~= given);
    while i < children.len()
        invariant
            i <= children.len(),
            fs == formulas_of(children@),
            Formula::all_plain(fs),
            0 <= start <= *next_var,
            start + Formula::gate_count_all(fs, fs.len() as int) <= i32::MAX,
            literals_of(vars@) == Formula::tseitin_all(fs, i as int, start).vars,
            *next_var == Formula::tseitin_all(fs, i as int, start).next,
            clauses_of(clauses@) == given + Formula::tseitin_all(fs, i as int, start).clauses,
            forall|k: int| 0 <= k < vars@.len() ==> vars@[k] > i32::MIN,
        decreases children.len() - i,
    {
        proof {
            lemma_tseitin_all_next(fs, i as int, start);
            lemma_gate_count_all_grows(fs, i + 1, fs.len() as int);
            assert(fs[i as int].plain());
        }
        let ghost before = Formula::tseitin_all(fs, i as int, start);
        let ghost seen = literals_of(vars@);
        let var = tseitin_clauses(&children[i], next_var, clauses);
        vars.push(var);
        proof {
            let part = fs[i as int].tseitin(before.next);
            assert(literals_of(vars@) =~= seen.push(var as int));
            assert(given + before.clauses + part.clauses =~= given + (before.clauses
                + part.clauses));
        }
        i += 1;
    }
    vars
}

/// The transformation of a node: the literal that stands for it. The
/// clauses that define the new variables are appended to `clauses`, and
/// `next_var`, the last variable in use, moves on.
fn tseitin_clauses(node: &RNode, next_var: &mut i32, clauses: &mut Vec<Vec<i32>>) -> (var: i32)
    requires
        node@.plain(),
        0 <= *old(next_var),
        *old(next_var) + node@.gate_count() <= i32::MAX,
    ensures
        var == node@.tseitin(*old(next_var) as int).var,
        *final(next_var) == node@.tseitin(*old(next_var) as int).next,
        clauses_of(final(clauses)@) == clauses_of(old(clauses)@) + node@.tseitin(
            *old(next_var) as int,
        ).clauses,
        var > i32::MIN,
        *old(next_var) <= *final(next_var),
    decreases node,
{
    let ghost start = *next_var as int;
    let ghost given = clauses_of(clauses@);
    match node {
        RNode::Sum(children) => {
            let ghost fs = formulas_of(children@);
            proof {
                lemma_tseitin_all_next(fs, fs.len() as int, start);
            }
            let vars = tseitin_children(children, next_var, clauses);
            let ghost parts = Formula::tseitin_all(fs, fs.len() as int, start);
            *next_var += 1;
            let new_var = *next_var;
            let ghost own = sum_clauses(parts.vars, new_var as int);
            let mut k: usize = 0;
            assert(own.take(0) =~= Seq::<Seq<int>>::empty());
            assert(given + parts.clauses + Seq::<Seq<int>>::empty() =~= given + parts.clauses);
            while k < vars.len()
                invariant
                    k <= vars.len(),
                    literals_of(vars@) == parts.vars,
                    own == sum_clauses(parts.vars, new_var as int),
                    forall|k: int| 0 <= k < vars@.len() ==> vars@[k] > i32::MIN,
                    new_var > 0,
                    clauses_of(clauses@) == given + parts.clauses + own.take(k as int),
                decreases vars.len() - k,
            {
                let clause = pair(new_var, -vars[k]);
                push_clause(clauses, clause);
                assert(own[k as int] =~= seq![new_var as int, -(vars@[k as int] as int)]) by {
                    assert(parts.vars[k as int] == vars@[k as int] as int);
                }
                assert(own.take(k + 1) =~= own.take(k as int).push(own[k as int]));
                assert(given + parts.clauses + own.take(k + 1) =~= (given + parts.clauses
                    + own.take(k as int)).push(own[k as int]));
                k += 1;
            }
            let mut long_clause = vars;
            let ghost short = literals_of(long_clause@);
            long_clause.push(-new_var);
            assert(literals_of(long_clause@) =~= short.push(-(new_var as int)));
            push_clause(clauses, long_clause);
            assert(own =~= own.take(own.len() - 1).push(own.last()));
            assert(given + (parts.clauses + own) =~= (given + parts.clauses + own.take(
                own.len() - 1,
            )).push(own.last()));
            new_var
        },
        RNode::Prod(children) => {
            let ghost fs = formulas_of(children@);
            proof {
                lemma_tseitin_all_next(fs, fs.len() as int, start);
            }
            let vars = tseitin_children(children, next_var, clauses);
            let ghost parts = Formula::tseitin_all(fs, fs.len() as int, start);
            *next_var += 1;
            let new_var = *next_var;
            let ghost own = prod_clauses(parts.vars, new_var as int);
            let mut long_clause: Vec<i32> = Vec::new();
            let mut k: usize = 0;
            assert(own.take(0) =~= Seq::<Seq<int>>::empty());
            assert(given + parts.clauses + Seq::<Seq<int>>::empty() =~= given + parts.clauses);
            assert(literals_of(long_clause@) =~= negated(parts.vars).take(0));
            while k < vars.len()
                invariant
                    k <= vars.len(),
                    literals_of(vars@) == parts.vars,
                    own == prod_clauses(parts.vars, new_var as int),
                    forall|k: int| 0 <= k < vars@.len() ==> vars@[k] > i32::MIN,
                    new_var > 0,
                    clauses_of(clauses@) == given + parts.clauses + own.take(k as int),
                    literals_of(long_clause@) == negated(parts.vars).take(k as int),
                decreases vars.len() - k,
            {
                let clause = pair(-new_var, vars[k]);
                push_clause(clauses, clause);
                assert(parts.vars[k as int] == vars@[k as int] as int);
                assert(own[k as int] =~= seq![-(new_var as int), vars@[k as int] as int]);
                assert(own.take(k + 1) =~= own.take(k as int).push(own[k as int]));
                assert(given + parts.clauses + own.take(k + 1) =~= (given + parts.clauses
                    + own.take(k as int)).push(own[k as int]));
                let ghost short = literals_of(long_clause@);
                long_clause.push(-vars[k]);
                assert(literals_of(long_clause@) =~= short.push(-(vars@[k as int] as int)));
                assert(negated(parts.vars).take(k + 1) =~= negated(parts.vars).take(k as int).push(
                    -parts.vars[k as int],
                ));
                k += 1;
            }
            let ghost short = literals_of(long_clause@);
            long_clause.push(new_var);
            assert(literals_of(long_clause@) =~= short.push(new_var as int));
            assert(negated(parts.vars).take(vars@.len() as int) =~= negated(parts.vars));
            push_clause(clauses, long_clause);
            assert(own =~= own.take(own.len() - 1).push(own.last()));
            assert(given + (parts.clauses + own) =~= (given + parts.clauses + own.take(
                own.len() - 1,
            )).push(own.last()));
            new_var
        },
        RNode::Neg(child) => {
            proof {
                lemma_tseitin_next(child@, start);
            }
            let child_var = tseitin_clauses(child, next_var, clauses);
            let ghost part = child@.tseitin(start);
            *next_var += 1;
            let new_var = *next_var;
            let first = pair(new_var, child_var);
            push_clause(clauses, first);
            let second = pair(-new_var, -child_var);
            push_clause(clauses, second);
            assert(clauses_of(clauses@) =~= given + (part.clauses + neg_clauses(
                child_var as int,
                new_var as int,
            )));
            new_var
        },
        RNode::Val(value) => {
            assert(given + Seq::<Seq<int>>::empty() =~= given);
            *value
        },
        _ => 0,
    }
}

/// Whether every node is plain.
fn all_plain(nodes: &Vec<Rc<RNode>>) -> (b: bool)
    ensures
        b == Formula::all_plain(formulas_of(nodes@)),
    decreases nodes,
{
    let mut i: usize = 0;
    while i < nodes.len()
        invariant
            i <= nodes.len(),
            forall|k: int| 0 <= k < i ==> (#[trigger] formulas_of(nodes@)[k]).plain(),
        decreases nodes.len() - i,
    {
        if !is_plain(&nodes[i]) {
            assert(!formulas_of(nodes@)[i as int].plain());
            return false;
        }
        i += 1;
    }
    true
}

/// Whether the node holds no constant and no literal without a negation of 32 bits.
fn is_plain(node: &RNode) -> (b: bool)
    ensures
        b == node@.plain(),
    decreases node,
{
    match node {
        RNode::Sum(vs) => all_plain(vs),
        RNode::Prod(vs) => all_plain(vs),
        RNode::Neg(v) => is_plain(v),
        RNode::Val(l) => *l > i32::MIN,
        _ => false,
    }
}

/// Takes the gates of some nodes from a budget; `None` if it does not suffice.
fn spend_all(nodes: &Vec<Rc<RNode>>, budget: u32) -> (r: Option<u32>)
    ensures
        match r {
            Some(rest) => rest == budget - Formula::gate_count_all(
                formulas_of(nodes@),
                nodes@.len() as int,
            ),
            None => Formula::gate_count_all(formulas_of(nodes@), nodes@.len() as int) > budget,
        },
    decreases nodes,
{
    let ghost fs = formulas_of(nodes@);
    let mut rest = budget;
    let mut i: usize = 0;
    while i < nodes.len()
        invariant
            i <= nodes.len(),
            fs == formulas_of(nodes@),
            rest == budget - Formula::gate_count_all(fs, i as int),
        decreases nodes.len() - i,
    {
        match spend(&nodes[i], rest) {
            Some(left) => {
                rest = left;
            },
            None => {
                proof {
                    lemma_gate_count_all_grows(fs, i + 1, fs.len() as int);
                }
                return None;
            },
        }
        i += 1;
    }
    Some(rest)
}

/// Takes the gates of a node from a budget; `None` if it does not suffice.
fn spend(node: &RNode, budget: u32) -> (r: Option<u32>)
    ensures
        match r {
            Some(rest) => rest == budget - node@.gate_count(),
            None => node@.gate_count() > budget,
        },
    decreases node,
{
    match node {
        RNode::Sum(vs) => {
            if budget == 0 {
                return None;
            }
            spend_all(vs, budget - 1)
        },
        RNode::Prod(vs) => {
            if budget == 0 {
                return None;
            }
            spend_all(vs, budget - 1)
        },
        RNode::Neg(v) => {
            if budget == 0 {
                return None;
            }
            spend(v, budget - 1)
        },
        _ => Some(budget),
    }
}

/// Whether `tseitin_transform` accepts the node with this number of variables.
pub fn can_transform(node: &RNode, nb_vars: u32) -> (b: bool)
    ensures
        b == node@.transformable(nb_vars as int),
{
    if node.is_cnf() {
        return true;
    }
    if nb_vars > 0x7fff_ffff || !is_plain(node) {
        return false;
    }
    spend(node, 0x7fff_ffff - nb_vars).is_some()
}

/// The disjunction of the literals of a clause.
fn clause_node(clause: &Vec<i32>) -> (r: Rc<RNode>)
    ensures
        r@ == Formula::Sum(
            Seq::new(clause@.len(), |j: int| Formula::Val(literals_of(clause@)[j] as i32)),
        ),
{
    let mut lits: Vec<Rc<RNode>> = Vec::new();
    let mut j: usize = 0;
    while j < clause.len()
        invariant
            j <= clause.len(),
            lits@.len() == j,
            forall|k: int| 0 <= k < j ==> (#[trigger] formulas_of(lits@)[k]) == Formula::Val(clause@[k]),
        decreases clause.len() - j,
    {
        let ghost before = formulas_of(lits@);
        lits.push(Rc::new(RNode::Val(clause[j])));
        assert forall|k: int| 0 <= k < j + 1 implies (#[trigger] formulas_of(lits@)[k])
            == Formula::Val(clause@[k]) by {
            if k < j {
                assert(formulas_of(lits@)[k] == before[k]);
            }
        }
        j += 1;
    }
    assert(formulas_of(lits@) =~= Seq::new(
        clause@.len(),
        |j: int| Formula::Val(literals_of(clause@)[j] as i32),
    ));
    Rc::new(RNode::Sum(lits))
}

/// The conjunctive normal form with the given clauses.
fn clauses_node(clauses: &Vec<Vec<i32>>) -> (r: Rc<RNode>)
    ensures
        r@ == Formula::of_clauses(clauses_of(clauses@)),
{
    let ghost want = Formula::of_clauses(clauses_of(clauses@))->Prod_0;
    let mut sums: Vec<Rc<RNode>> = Vec::new();
    let mut i: usize = 0;
    while i < clauses.len()
        invariant
            i <= clauses.len(),
            want == Formula::of_clauses(clauses_of(clauses@))->Prod_0,
            sums@.len() == i,
            forall|k: int| 0 <= k < i ==> (#[trigger] formulas_of(sums@)[k]) == want[k],
        decreases clauses.len() - i,
    {
        let ghost before = formulas_of(sums@);
        let sum = clause_node(&clauses[i]);
        assert(sum@ == want[i as int]);
        sums.push(sum);
        assert forall|k: int| 0 <= k < i + 1 implies (#[trigger] formulas_of(sums@)[k]) == want[k] by {
            if k < i {
                assert(formulas_of(sums@)[k] == before[k]);
            }
        }
        i += 1;
    }
    assert(formulas_of(sums@) =~= want);
    Rc::new(RNode::Prod(sums))
}

/// Brings a formula into conjunctive normal form. A formula in that form is
/// handed back. Any other formula is replaced by the clauses of its
/// Tseitin transformation, whose new variables are numbered from
/// `nb_vars + 1` on, and the clause that states the formula's own literal.
pub fn tseitin_transform(node: Rc<RNode>, nb_vars: u32) -> (r: Rc<RNode>)
    requires
        node@.transformable(nb_vars as int),
    ensures
        r@ == node@.tseitin_cnf(nb_vars as int),
{
    if node.is_cnf() {
        return node;
    }
    let mut next_var: i32 = nb_vars as i32;
    let mut clauses: Vec<Vec<i32>> = Vec::new();
    assert(clauses_of(clauses@) =~= Seq::<Seq<int>>::empty());
    let new_var = tseitin_clauses(&node, &mut next_var, &mut clauses);
    let ghost whole = node@.tseitin(nb_vars as int);
    assert(Seq::<Seq<int>>::empty() + whole.clauses =~= whole.clauses);
    let mut unit: Vec<i32> = Vec::new();
    unit.push(new_var);
    assert(literals_of(unit@) =~= seq![new_var as int]);
    push_clause(&mut clauses, unit);
    clauses_node(&clauses)
}

} // verus!
