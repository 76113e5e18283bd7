//! The Tseitin transformation keeps satisfiability.
use vstd::prelude::*;
use crate::circuit::lit_var;
use crate::circuit::rcircuit::Formula;
use crate::circuit::semantics::lit_holds;
use crate::circuit::tseitin::{neg_clauses, negated, prod_clauses, sum_clauses};

verus! {

/// Whether a clause is true under an assignment: one of its literals is.
pub open spec fn clause_holds(clause: Seq<int>, b: spec_fn(int) -> bool) -> bool {
    exists|j: int| 0 <= j < clause.len() && lit_holds(b, #[trigger] clause[j])
}

/// Whether every clause is true under an assignment.
pub open spec fn clauses_hold(clauses: Seq<Seq<int>>, b: spec_fn(int) -> bool) -> bool {
    forall|i: int| 0 <= i < clauses.len() ==> clause_holds(#[trigger] clauses[i], b)
}

/// Two assignments that give the same value to every variable up to `m`.
pub open spec fn agree(a: spec_fn(int) -> bool, b: spec_fn(int) -> bool, m: int) -> bool {
    forall|v: int| v <= m ==> #[trigger] a(v) == b(v)
}

/// Every literal of the clauses is a literal of a variable from 1 to `m`.
pub open spec fn lits_within(clauses: Seq<Seq<int>>, m: int) -> bool {
    forall|i: int, j: int|
        0 <= i < clauses.len() && 0 <= j < clauses[i].len() ==> 1 <= lit_var(
            #[trigger] clauses[i][j],
        ) <= m
}

impl Formula {
    /// The formula holds no constant, and each of its literals is a 32-bit
    /// integer other than zero that has a negation of 32 bits.
    pub open spec fn proper(self) -> bool
        decreases self,
    {
        match self {
            Formula::Prod(fs) => Self::all_proper(fs),
            Formula::Sum(fs) => Self::all_proper(fs),
            Formula::Neg(f) => f.proper(),
            Formula::Val(l) => l != 0 && l > i32::MIN,
            _ => false,
        }
    }

    /// Every formula of the sequence is proper.
    pub open spec fn all_proper(fs: Seq<Formula>) -> bool
        decreases fs,
    {
        forall|i: int| 0 <= i < fs.len() ==> (#[trigger] fs[i]).proper()
    }
}

/// A proper formula is plain.
pub proof fn lemma_proper_is_plain(f: Formula)
    requires
        f.proper(),
    ensures
        f.plain(),
    decreases f,
{
    match f {
        Formula::Prod(fs) => {
            assert(Formula::all_proper(fs));
            assert forall|i: int| 0 <= i < fs.len() implies (#[trigger] fs[i]).plain() by {
                lemma_proper_is_plain(fs[i]);
            }
            assert(Formula::all_plain(fs));
        },
        Formula::Sum(fs) => {
            assert(Formula::all_proper(fs));
            assert forall|i: int| 0 <= i < fs.len() implies (#[trigger] fs[i]).plain() by {
                lemma_proper_is_plain(fs[i]);
            }
            assert(Formula::all_plain(fs));
        },
        Formula::Neg(g) => {
            lemma_proper_is_plain(*g);
        },
        _ => {},
    }
}

/// No formula of a sequence has a larger variable than the sequence.
pub proof fn lemma_max_vars_bounds(fs: Seq<Formula>, n: int, i: int)
    requires
        0 <= i < n <= fs.len(),
    ensures
        fs[i].nb_vars() <= Formula::max_vars(fs, n),
    decreases n,
{
    if i < n - 1 {
        lemma_max_vars_bounds(fs, n - 1, i);
    }
}

/// The truth of a formula depends only on the variables up to its largest.
pub proof fn lemma_holds_depends(
    f: Formula,
    a: spec_fn(int) -> bool,
    b: spec_fn(int) -> bool,
    m: int,
)
    requires
        agree(a, b, m),
        f.nb_vars() <= m,
    ensures
        f.holds(a) == f.holds(b),
    decreases f,
{
    match f {
        Formula::Prod(fs) => {
            assert forall|i: int| 0 <= i < fs.len() implies (#[trigger] fs[i]).holds(a) == fs[i].holds(
                b,
            ) by {
                lemma_max_vars_bounds(fs, fs.len() as int, i);
                lemma_holds_depends(fs[i], a, b, m);
            }
            assert(Formula::all_hold(fs, a) == Formula::all_hold(fs, b));
        },
        Formula::Sum(fs) => {
            assert forall|i: int| 0 <= i < fs.len() implies (#[trigger] fs[i]).holds(a) == fs[i].holds(
                b,
            ) by {
                lemma_max_vars_bounds(fs, fs.len() as int, i);
                lemma_holds_depends(fs[i], a, b, m);
            }
            if Formula::some_holds(fs, a) {
                let i = choose|i: int| 0 <= i < fs.len() && (#[trigger] fs[i]).holds(a);
                assert(fs[i].holds(b));
            }
            if Formula::some_holds(fs, b) {
                let i = choose|i: int| 0 <= i < fs.len() && (#[trigger] fs[i]).holds(b);
                assert(fs[i].holds(a));
            }
        },
        Formula::Neg(g) => {
            lemma_holds_depends(*g, a, b, m);
        },
        Formula::Val(l) => {
            assert(a(lit_var(l as int)) == b(lit_var(l as int)));
        },
        _ => {},
    }
}

/// The truth of clauses depends only on the variables that they mention.
pub proof fn lemma_clauses_depend(
    clauses: Seq<Seq<int>>,
    a: spec_fn(int) -> bool,
    b: spec_fn(int) -> bool,
    m: int,
)
    requires
        agree(a, b, m),
        lits_within(clauses, m),
        clauses_hold(clauses, a),
    ensures
        clauses_hold(clauses, b),
{
    assert forall|i: int| 0 <= i < clauses.len() implies clause_holds(#[trigger] clauses[i], b) by {
        assert(clause_holds(clauses[i], a));
        let j = choose|j: int| 0 <= j < clauses[i].len() && lit_holds(a, #[trigger] clauses[i][j]);
        let l = clauses[i][j];
        assert(1 <= lit_var(l) <= m);
        assert(a(lit_var(l)) == b(lit_var(l)));
        assert(lit_holds(b, clauses[i][j]));
    }
}

/// What holds of the variables of a transformation: the last variable in
/// use does not go back, the literal of the formula belongs to a variable
/// from 1 to the last in use, and so does every literal of the clauses.
pub proof fn lemma_tseitin_within(f: Formula, next: int)
    requires
        f.proper(),
        0 <= next,
        f.nb_vars() <= next,
    ensures
        next <= f.tseitin(next).next,
        1 <= lit_var(f.tseitin(next).var) <= f.tseitin(next).next,
        lits_within(f.tseitin(next).clauses, f.tseitin(next).next),
    decreases f,
{
    let t = f.tseitin(next);
    match f {
        Formula::Neg(g) => {
            lemma_tseitin_within(*g, next);
            let part = g.tseitin(next);
            let y = part.next + 1;
            let own = neg_clauses(part.var, y);
            assert forall|i: int, j: int|
                0 <= i < t.clauses.len() && 0 <= j < t.clauses[i].len() implies 1 <= lit_var(
                #[trigger] t.clauses[i][j],
            ) <= t.next by {
                if i < part.clauses.len() {
                    assert(t.clauses[i] == part.clauses[i]);
                    assert(1 <= lit_var(part.clauses[i][j]) <= part.next);
                } else {
                    assert(t.clauses[i] == own[i - part.clauses.len()]);
                }
            }
        },
        Formula::Sum(fs) => {
            lemma_tseitin_all_within(fs, fs.len() as int, next);
            let parts = Formula::tseitin_all(fs, fs.len() as int, next);
            let y = parts.next + 1;
            let own = sum_clauses(parts.vars, y);
            assert forall|i: int, j: int|
                0 <= i < t.clauses.len() && 0 <= j < t.clauses[i].len() implies 1 <= lit_var(
                #[trigger] t.clauses[i][j],
            ) <= t.next by {
                if i < parts.clauses.len() {
                    assert(t.clauses[i] == parts.clauses[i]);
                    assert(1 <= lit_var(parts.clauses[i][j]) <= parts.next);
                } else {
                    let k = i - parts.clauses.len();
                    assert(t.clauses[i] == own[k]);
                    if k < parts.vars.len() {
                        assert(1 <= lit_var(parts.vars[k]) <= parts.next);
                    } else if j < parts.vars.len() {
                        assert(1 <= lit_var(parts.vars[j]) <= parts.next);
                    }
                }
            }
        },
        Formula::Prod(fs) => {
            lemma_tseitin_all_within(fs, fs.len() as int, next);
            let parts = Formula::tseitin_all(fs, fs.len() as int, next);
            let y = parts.next + 1;
            let own = prod_clauses(parts.vars, y);
            assert forall|i: int, j: int|
                0 <= i < t.clauses.len() && 0 <= j < t.clauses[i].len() implies 1 <= lit_var(
                #[trigger] t.clauses[i][j],
            ) <= t.next by {
                if i < parts.clauses.len() {
                    assert(t.clauses[i] == parts.clauses[i]);
                    assert(1 <= lit_var(parts.clauses[i][j]) <= parts.next);
                } else {
                    let k = i - parts.clauses.len();
                    assert(t.clauses[i] == own[k]);
                    if k < parts.vars.len() {
                        assert(1 <= lit_var(parts.vars[k]) <= parts.next);
                    } else if j < parts.vars.len() {
                        assert(1 <= lit_var(parts.vars[j]) <= parts.next);
                        assert(negated(parts.vars)[j] == -parts.vars[j]);
                    }
                }
            }
        },
        _ => {},
    }
}

/// What holds of the variables of the transformation of some formulas.
pub proof fn lemma_tseitin_all_within(fs: Seq<Formula>, n: int, next: int)
    requires
        Formula::all_proper(fs),
        0 <= n <= fs.len(),
        0 <= next,
        Formula::max_vars(fs, fs.len() as int) <= next,
    ensures
        next <= Formula::tseitin_all(fs, n, next).next,
        Formula::tseitin_all(fs, n, next).vars.len() == n,
        forall|k: int|
            0 <= k < n ==> 1 <= lit_var(#[trigger] Formula::tseitin_all(fs, n, next).vars[k])
                <= Formula::tseitin_all(fs, n, next).next,
        lits_within(
            Formula::tseitin_all(fs, n, next).clauses,
            Formula::tseitin_all(fs, n, next).next,
        ),
    decreases fs, n,
{
    if n > 0 {
        lemma_tseitin_all_within(fs, n - 1, next);
        let before = Formula::tseitin_all(fs, n - 1, next);
        lemma_max_vars_bounds(fs, fs.len() as int, n - 1);
        assert(fs[n - 1].proper());
        lemma_tseitin_within(fs[n - 1], before.next);
        let part = fs[n - 1].tseitin(before.next);
        let all = Formula::tseitin_all(fs, n, next);
        assert forall|k: int| 0 <= k < n implies 1 <= lit_var(#[trigger] all.vars[k]) <= all.next by {
            if k < n - 1 {
                assert(all.vars[k] == before.vars[k]);
            }
        }
        assert forall|i: int, j: int|
            0 <= i < all.clauses.len() && 0 <= j < all.clauses[i].len() implies 1 <= lit_var(
            #[trigger] all.clauses[i][j],
        ) <= all.next by {
            if i < before.clauses.len() {
                assert(all.clauses[i] == before.clauses[i]);
                assert(1 <= lit_var(before.clauses[i][j]) <= before.next);
            } else {
                assert(all.clauses[i] == part.clauses[i - before.clauses.len()]);
            }
        }
    }
}

/// Where all of some clauses are true, so are the first and the last of them.
pub proof fn lemma_clauses_split(
    first: Seq<Seq<int>>,
    second: Seq<Seq<int>>,
    b: spec_fn(int) -> bool,
)
    ensures
        clauses_hold(first + second, b) == (clauses_hold(first, b) && clauses_hold(second, b)),
{
    let all = first + second;
    if clauses_hold(all, b) {
        assert forall|i: int| 0 <= i < first.len() implies clause_holds(#[trigger] first[i], b) by {
            assert(all[i] == first[i]);
        }
        assert forall|i: int| 0 <= i < second.len() implies clause_holds(#[trigger] second[i], b) by {
            assert(all[first.len() + i] == second[i]);
        }
    }
    if clauses_hold(first, b) && clauses_hold(second, b) {
        assert forall|i: int| 0 <= i < all.len() implies clause_holds(#[trigger] all[i], b) by {
            if i < first.len() {
                assert(all[i] == first[i]);
            } else {
                assert(all[i] == second[i - first.len()]);
            }
        }
    }
}

/// Under an assignment that makes the clauses of a transformation true, the
/// literal of the formula is true exactly where the formula is.
pub proof fn lemma_tseitin_defines(f: Formula, next: int, b: spec_fn(int) -> bool)
    requires
        f.proper(),
        0 <= next,
        f.nb_vars() <= next,
        clauses_hold(f.tseitin(next).clauses, b),
    ensures
        lit_holds(b, f.tseitin(next).var) == f.holds(b),
    decreases f,
{
    let t = f.tseitin(next);
    match f {
        Formula::Neg(g) => {
            let part = g.tseitin(next);
            let y = part.next + 1;
            let own = neg_clauses(part.var, y);
            lemma_clauses_split(part.clauses, own, b);
            lemma_tseitin_within(*g, next);
            lemma_tseitin_defines(*g, next, b);
            assert(clause_holds(own[0], b));
            assert(clause_holds(own[1], b));
            let j0 = choose|j: int| 0 <= j < own[0].len() && lit_holds(b, #[trigger] own[0][j]);
            let j1 = choose|j: int| 0 <= j < own[1].len() && lit_holds(b, #[trigger] own[1][j]);
        },
        Formula::Sum(fs) => {
            let n = fs.len() as int;
            let parts = Formula::tseitin_all(fs, n, next);
            let y = parts.next + 1;
            let own = sum_clauses(parts.vars, y);
            assert(Formula::all_proper(fs));
            lemma_clauses_split(parts.clauses, own, b);
            lemma_tseitin_all_within(fs, n, next);
            lemma_tseitin_all_defines(fs, n, next, b);
            if Formula::some_holds(fs, b) {
                let i = choose|i: int| 0 <= i < fs.len() && (#[trigger] fs[i]).holds(b);
                assert(lit_holds(b, parts.vars[i]));
                assert(1 <= lit_var(parts.vars[i]));
                assert(clause_holds(own[i], b));
                let j = choose|j: int| 0 <= j < own[i].len() && lit_holds(b, #[trigger] own[i][j]);
                assert(b(y));
            }
            if b(y) {
                assert(clause_holds(own[n], b));
                let j = choose|j: int| 0 <= j < own[n].len() && lit_holds(b, #[trigger] own[n][j]);
                assert(j < n);
                assert(own[n][j] == parts.vars[j]);
                assert(fs[j].holds(b));
                assert(Formula::some_holds(fs, b));
            }
        },
        Formula::Prod(fs) => {
            let n = fs.len() as int;
            let parts = Formula::tseitin_all(fs, n, next);
            let y = parts.next + 1;
            let own = prod_clauses(parts.vars, y);
            assert(Formula::all_proper(fs));
            lemma_clauses_split(parts.clauses, own, b);
            lemma_tseitin_all_within(fs, n, next);
            lemma_tseitin_all_defines(fs, n, next, b);
            if b(y) {
                assert forall|i: int| 0 <= i < fs.len() implies (#[trigger] fs[i]).holds(b) by {
                    assert(clause_holds(own[i], b));
                    let j = choose|j: int|
                        0 <= j < own[i].len() && lit_holds(b, #[trigger] own[i][j]);
                    assert(lit_holds(b, parts.vars[i]));
                }
                assert(Formula::all_hold(fs, b));
            }
            if Formula::all_hold(fs, b) {
                assert(clause_holds(own[n], b));
                let j = choose|j: int| 0 <= j < own[n].len() && lit_holds(b, #[trigger] own[n][j]);
                if j < n {
                    assert(own[n][j] == -parts.vars[j]);
                    assert(1 <= lit_var(parts.vars[j]));
                    assert(fs[j].holds(b));
                    assert(lit_holds(b, parts.vars[j]));
                }
                assert(b(y));
            }
        },
        _ => {},
    }
}

/// Under an assignment that makes the clauses of the transformation of some
/// formulas true, the literal of each formula is true exactly where the
/// formula is.
pub proof fn lemma_tseitin_all_defines(
    fs: Seq<Formula>,
    n: int,
    next: int,
    b: spec_fn(int) -> bool,
)
    requires
        Formula::all_proper(fs),
        0 <= n <= fs.len(),
        0 <= next,
        Formula::max_vars(fs, fs.len() as int) <= next,
        clauses_hold(Formula::tseitin_all(fs, n, next).clauses, b),
    ensures
        forall|k: int|
            0 <= k < n ==> lit_holds(b, #[trigger] Formula::tseitin_all(fs, n, next).vars[k])
                == fs[k].holds(b),
    decreases fs, n,
{
    if n > 0 {
        let before = Formula::tseitin_all(fs, n - 1, next);
        let part = fs[n - 1].tseitin(before.next);
        let all = Formula::tseitin_all(fs, n, next);
        lemma_clauses_split(before.clauses, part.clauses, b);
        lemma_tseitin_all_within(fs, n - 1, next);
        lemma_max_vars_bounds(fs, fs.len() as int, n - 1);
        assert(fs[n - 1].proper());
        lemma_tseitin_all_defines(fs, n - 1, next, b);
        lemma_tseitin_defines(fs[n - 1], before.next, b);
        assert forall|k: int| 0 <= k < n implies lit_holds(b, #[trigger] all.vars[k]) == fs[k].holds(
            b,
        ) by {
            if k < n - 1 {
                assert(all.vars[k] == before.vars[k]);
            }
        }
    }
}

/// An assignment can be changed above `next` so that the clauses of a
/// transformation become true.
pub proof fn lemma_tseitin_extends(f: Formula, next: int, a: spec_fn(int) -> bool) -> (b: spec_fn(
    int,
) -> bool)
    requires
        f.proper(),
        0 <= next,
        f.nb_vars() <= next,
    ensures
        agree(a, b, next),
        clauses_hold(f.tseitin(next).clauses, b),
    decreases f,
{
    let t = f.tseitin(next);
    match f {
        Formula::Neg(g) => {
            let part = g.tseitin(next);
            let y = part.next + 1;
            let own = neg_clauses(part.var, y);
            let b1 = lemma_tseitin_extends(*g, next, a);
            lemma_tseitin_within(*g, next);
            let value = !lit_holds(b1, part.var);
            let b = |v: int|
                if v == y {
                    value
                } else {
                    b1(v)
                };
            assert(agree(b1, b, part.next));
            lemma_clauses_depend(part.clauses, b1, b, part.next);
            assert(lit_holds(b, part.var) == lit_holds(b1, part.var)) by {
                assert(b1(lit_var(part.var)) == b(lit_var(part.var)));
            }
            assert forall|i: int| 0 <= i < own.len() implies clause_holds(#[trigger] own[i], b) by {
                if value {
                    assert(lit_holds(b, own[0][0]));
                    assert(lit_holds(b, own[1][1]));
                } else {
                    assert(lit_holds(b, own[0][1]));
                    assert(lit_holds(b, own[1][0]));
                }
            }
            lemma_clauses_split(part.clauses, own, b);
            assert(agree(a, b, next));
            b
        },
        Formula::Sum(fs) => {
            let n = fs.len() as int;
            let parts = Formula::tseitin_all(fs, n, next);
            let y = parts.next + 1;
            let own = sum_clauses(parts.vars, y);
            assert(Formula::all_proper(fs));
            let b1 = lemma_tseitin_all_extends(fs, n, next, a);
            lemma_tseitin_all_within(fs, n, next);
            let value = Formula::some_holds(fs, b1);
            let b = |v: int|
                if v == y {
                    value
                } else {
                    b1(v)
                };
            assert(agree(b1, b, parts.next));
            lemma_clauses_depend(parts.clauses, b1, b, parts.next);
            lemma_tseitin_all_defines(fs, n, next, b);
            lemma_holds_depends(f, b1, b, parts.next);
            assert forall|k: int| 0 <= k < n implies (#[trigger] fs[k]).holds(b1) == fs[k].holds(b) by {
                lemma_max_vars_bounds(fs, n, k);
                lemma_holds_depends(fs[k], b1, b, parts.next);
            }
            assert forall|i: int| 0 <= i < own.len() implies clause_holds(#[trigger] own[i], b) by {
                if i < n {
                    if value {
                        assert(lit_holds(b, own[i][0]));
                    } else {
                        assert(!fs[i].holds(b1));
                        assert(!lit_holds(b, parts.vars[i]));
                        assert(1 <= lit_var(parts.vars[i]));
                        assert(lit_holds(b, own[i][1]));
                    }
                } else {
                    if value {
                        let k = choose|k: int| 0 <= k < fs.len() && (#[trigger] fs[k]).holds(b1);
                        assert(lit_holds(b, parts.vars[k]));
                        assert(lit_holds(b, own[n][k]));
                    } else {
                        assert(lit_holds(b, own[n][n]));
                    }
                }
            }
            lemma_clauses_split(parts.clauses, own, b);
            assert(agree(a, b, next));
            b
        },
        Formula::Prod(fs) => {
            let n = fs.len() as int;
            let parts = Formula::tseitin_all(fs, n, next);
            let y = parts.next + 1;
            let own = prod_clauses(parts.vars, y);
            assert(Formula::all_proper(fs));
            let b1 = lemma_tseitin_all_extends(fs, n, next, a);
            lemma_tseitin_all_within(fs, n, next);
            let value = Formula::all_hold(fs, b1);
            let b = |v: int|
                if v == y {
                    value
                } else {
                    b1(v)
                };
            assert(agree(b1, b, parts.next));
            lemma_clauses_depend(parts.clauses, b1, b, parts.next);
            lemma_tseitin_all_defines(fs, n, next, b);
            assert forall|k: int| 0 <= k < n implies (#[trigger] fs[k]).holds(b1) == fs[k].holds(b) by {
                lemma_max_vars_bounds(fs, n, k);
                lemma_holds_depends(fs[k], b1, b, parts.next);
            }
            assert forall|i: int| 0 <= i < own.len() implies clause_holds(#[trigger] own[i], b) by {
                if i < n {
                    if value {
                        assert(fs[i].holds(b1));
                        assert(lit_holds(b, parts.vars[i]));
                        assert(lit_holds(b, own[i][1]));
                    } else {
                        assert(lit_holds(b, own[i][0]));
                    }
                } else {
                    if value {
                        assert(lit_holds(b, own[n][n]));
                    } else {
                        let k = choose|k: int| 0 <= k < fs.len() && !(#[trigger] fs[k]).holds(b1);
                        assert(!lit_holds(b, parts.vars[k]));
                        assert(1 <= lit_var(parts.vars[k]));
                        assert(own[n][k] == -parts.vars[k]);
                        assert(lit_holds(b, own[n][k]));
                    }
                }
            }
            lemma_clauses_split(parts.clauses, own, b);
            assert(agree(a, b, next));
            b
        },
        _ => a,
    }
}

/// An assignment can be changed above `next` so that the clauses of the
/// transformation of some formulas become true.
pub proof fn lemma_tseitin_all_extends(
    fs: Seq<Formula>,
    n: int,
    next: int,
    a: spec_fn(int) -> bool,
) -> (b: spec_fn(int) -> bool)
    requires
        Formula::all_proper(fs),
        0 <= n <= fs.len(),
        0 <= next,
        Formula::max_vars(fs, fs.len() as int) <= next,
    ensures
        agree(a, b, next),
        clauses_hold(Formula::tseitin_all(fs, n, next).clauses, b),
    decreases fs, n,
{
    if n > 0 {
        let before = Formula::tseitin_all(fs, n - 1, next);
        let part = fs[n - 1].tseitin(before.next);
        let b1 = lemma_tseitin_all_extends(fs, n - 1, next, a);
        lemma_tseitin_all_within(fs, n - 1, next);
        lemma_max_vars_bounds(fs, fs.len() as int, n - 1);
        assert(fs[n - 1].proper());
        let b = lemma_tseitin_extends(fs[n - 1], before.next, b1);
        lemma_clauses_depend(before.clauses, b1, b, before.next);
        lemma_clauses_split(before.clauses, part.clauses, b);
        assert(agree(a, b, next));
        b
    } else {
        a
    }
}

/// A conjunctive normal form made of clauses whose literals fit in 32 bits
/// is true exactly where all the clauses are.
pub proof fn lemma_of_clauses_holds(clauses: Seq<Seq<int>>, b: spec_fn(int) -> bool, m: int)
    requires
        lits_within(clauses, m),
        m <= i32::MAX,
    ensures
        Formula::of_clauses(clauses).holds(b) == clauses_hold(clauses, b),
{
    let sums = Formula::of_clauses(clauses)->Prod_0;
    assert forall|i: int| 0 <= i < clauses.len() implies (#[trigger] sums[i]).holds(b)
        == clause_holds(clauses[i], b) by {
        let lits = sums[i]->Sum_0;
        assert forall|j: int| 0 <= j < clauses[i].len() implies (#[trigger] lits[j]).holds(b)
            == lit_holds(b, clauses[i][j]) by {
            assert(1 <= lit_var(clauses[i][j]) <= m);
        }
        if Formula::some_holds(lits, b) {
            let j = choose|j: int| 0 <= j < lits.len() && (#[trigger] lits[j]).holds(b);
            assert(lit_holds(b, clauses[i][j]));
        }
        if clause_holds(clauses[i], b) {
            let j = choose|j: int| 0 <= j < clauses[i].len() && lit_holds(b, #[trigger] clauses[i][j]);
            assert(lits[j].holds(b));
        }
    }
    if Formula::all_hold(sums, b) {
        assert forall|i: int| 0 <= i < clauses.len() implies clause_holds(#[trigger] clauses[i], b) by {
            assert(sums[i].holds(b));
        }
    }
    if clauses_hold(clauses, b) {
        assert forall|i: int| 0 <= i < sums.len() implies (#[trigger] sums[i]).holds(b) by {
            assert(clause_holds(clauses[i], b));
        }
    }
}

/// The Tseitin transformation keeps satisfiability in the variables of the
/// formula. For a formula whose variables are at most `nb_vars`, and which
/// is in conjunctive normal form or is proper with new variables that fit
/// in 32 bits: an assignment makes the formula true if and only if some
/// assignment that agrees with it on the variables up to `nb_vars` makes the
/// transformed formula true.
pub proof fn lemma_tseitin_equisatisfiable(f: Formula, nb_vars: int, a: spec_fn(int) -> bool)
    requires
        f.is_cnf() || (f.proper() && nb_vars + f.gate_count() <= i32::MAX),
        0 <= nb_vars,
        f.nb_vars() <= nb_vars,
    ensures
        f.transformable(nb_vars),
        f.holds(a) <==> exists|b: spec_fn(int) -> bool| #[trigger]
            agree(a, b, nb_vars) && f.tseitin_cnf(nb_vars).holds(b),
{
    let cnf = f.tseitin_cnf(nb_vars);
    if !f.is_cnf() {
        lemma_proper_is_plain(f);
    }
    if f.is_cnf() {
        if f.holds(a) {
            assert(agree(a, a, nb_vars) && cnf.holds(a));
        }
        if exists|b: spec_fn(int) -> bool| #[trigger] agree(a, b, nb_vars) && cnf.holds(b) {
            let b = choose|b: spec_fn(int) -> bool| #[trigger] agree(a, b, nb_vars) && cnf.holds(b);
            lemma_holds_depends(f, a, b, nb_vars);
        }
    } else {
        let whole = f.tseitin(nb_vars);
        let all = whole.clauses.push(seq![whole.var]);
        crate::circuit::tseitin::lemma_tseitin_next(f, nb_vars);
        lemma_tseitin_within(f, nb_vars);
        assert(all =~= whole.clauses + seq![seq![whole.var]]);
        assert(lits_within(all, whole.next)) by {
            assert forall|i: int, j: int|
                0 <= i < all.len() && 0 <= j < all[i].len() implies 1 <= lit_var(
                #[trigger] all[i][j],
            ) <= whole.next by {
                if i < whole.clauses.len() {
                    assert(all[i] == whole.clauses[i]);
                    assert(1 <= lit_var(whole.clauses[i][j]) <= whole.next);
                }
            }
        }
        if f.holds(a) {
            let b = lemma_tseitin_extends(f, nb_vars, a);
            lemma_tseitin_defines(f, nb_vars, b);
            lemma_holds_depends(f, a, b, nb_vars);
            assert(clause_holds(seq![whole.var], b)) by {
                assert(lit_holds(b, seq![whole.var][0]));
            }
            assert(clauses_hold(seq![seq![whole.var]], b));
            lemma_clauses_split(whole.clauses, seq![seq![whole.var]], b);
            lemma_of_clauses_holds(all, b, whole.next);
            assert(agree(a, b, nb_vars) && cnf.holds(b));
        }
        if exists|b: spec_fn(int) -> bool| #[trigger] agree(a, b, nb_vars) && cnf.holds(b) {
            let b = choose|b: spec_fn(int) -> bool| #[trigger] agree(a, b, nb_vars) && cnf.holds(b);
            lemma_of_clauses_holds(all, b, whole.next);
            lemma_clauses_split(whole.clauses, seq![seq![whole.var]], b);
            lemma_tseitin_defines(f, nb_vars, b);
            assert(clause_holds(seq![seq![whole.var]][0], b));
            let j = choose|j: int| 0 <= j < seq![whole.var].len() && lit_holds(b, #[trigger] seq![whole.var][j]);
            assert(lit_holds(b, whole.var));
            lemma_holds_depends(f, a, b, nb_vars);
        }
    }
}

} // verus!
