//! What formulas mean: their truth under an assignment, and the laws of
//! simplifying and conditioning.
use vstd::prelude::*;
use crate::circuit::rcircuit::Formula;

verus! {

/// Whether a literal is true under an assignment of truth values to the
/// variables: a positive literal as its variable, a negative one as the
/// opposite.
pub open spec fn lit_holds(a: spec_fn(int) -> bool, lit: int) -> bool {
    if lit > 0 {
        a(lit)
    } else {
        !a(-lit)
    }
}

impl Formula {
    /// Whether the formula is true under an assignment.
    pub open spec fn holds(self, a: spec_fn(int) -> bool) -> bool
        decreases self,
    {
        match self {
            Formula::Prod(fs) => Self::all_hold(fs, a),
            Formula::Sum(fs) => Self::some_holds(fs, a),
            Formula::Neg(f) => !f.holds(a),
            Formula::Val(l) => lit_holds(a, l as int),
            Formula::One => true,
            Formula::Zero => false,
        }
    }

    /// Whether every formula of the sequence is true under an assignment.
    pub open spec fn all_hold(fs: Seq<Formula>, a: spec_fn(int) -> bool) -> bool
        decreases fs,
    {
        forall|i: int| 0 <= i < fs.len() ==> (#[trigger] fs[i]).holds(a)
    }

    /// Whether some formula of the sequence is true under an assignment.
    pub open spec fn some_holds(fs: Seq<Formula>, a: spec_fn(int) -> bool) -> bool
        decreases fs,
    {
        exists|i: int| 0 <= i < fs.len() && (#[trigger] fs[i]).holds(a)
    }
}

/// A disjunction without parts simplifies to falsehood, and a conjunction
/// without parts to truth.
pub proof fn lemma_simplify_empty()
    ensures
        Formula::Sum(Seq::empty()).simplify() == Formula::Zero,
        Formula::Prod(Seq::empty()).simplify() == Formula::One,
{
    let none = Seq::<Formula>::empty();
    assert(Formula::simplify_all(none) =~= none);
    assert(Formula::without(none, Formula::Zero) =~= none);
    assert(Formula::without(none, Formula::One) =~= none);
}

/// What is left without a constant: each formula left is one of the
/// sequence and differs from the constant, and each formula of the sequence
/// that differs from it is left.
pub proof fn lemma_without(fs: Seq<Formula>, unit: Formula)
    ensures
        forall|k: int|
            0 <= k < Formula::without(fs, unit).len() ==> (#[trigger] Formula::without(fs, unit)[k])
                != unit && fs.contains(Formula::without(fs, unit)[k]),
        forall|i: int|
            0 <= i < fs.len() && (#[trigger] fs[i]) != unit ==> Formula::without(fs, unit).contains(
                fs[i],
            ),
    decreases fs.len(),
{
    if fs.len() > 0 {
        lemma_without(fs.drop_last(), unit);
        let before = Formula::without(fs.drop_last(), unit);
        let kept = Formula::without(fs, unit);
        assert forall|k: int| 0 <= k < kept.len() implies (#[trigger] kept[k]) != unit
            && fs.contains(kept[k]) by {
            if k < before.len() {
                assert(kept[k] == before[k]);
                let i = choose|i: int| 0 <= i < fs.drop_last().len() && fs.drop_last()[i] == before[k];
                assert(fs[i] == kept[k]);
            } else {
                assert(kept[k] == fs[fs.len() - 1]);
            }
        }
        assert forall|i: int| 0 <= i < fs.len() && (#[trigger] fs[i]) != unit implies kept.contains(
            fs[i],
        ) by {
            if i < fs.len() - 1 {
                assert(fs.drop_last()[i] == fs[i]);
                let k = choose|k: int| 0 <= k < before.len() && before[k] == fs[i];
                assert(kept[k] == fs[i]);
            } else {
                assert(kept[kept.len() - 1] == fs[i]);
            }
        }
    }
}

/// Simplifying keeps the meaning: under every assignment the simplified
/// formula is true exactly where the formula is.
pub proof fn lemma_simplify_keeps_meaning(f: Formula, a: spec_fn(int) -> bool)
    ensures
        f.simplify().holds(a) == f.holds(a),
    decreases f,
{
    match f {
        Formula::Sum(fs) => {
            let all = Formula::simplify_all(fs);
            assert forall|i: int| 0 <= i < fs.len() implies (#[trigger] all[i]).holds(a) == fs[i].holds(
                a,
            ) by {
                lemma_simplify_keeps_meaning(fs[i], a);
            }
            let kept = Formula::without(all, Formula::Zero);
            lemma_without(all, Formula::Zero);
            if Formula::some_holds(fs, a) {
                let i = choose|i: int| 0 <= i < fs.len() && (#[trigger] fs[i]).holds(a);
                assert(all[i].holds(a));
                assert(all[i] != Formula::Zero);
                let k = choose|k: int| 0 <= k < kept.len() && kept[k] == all[i];
                assert(kept[k].holds(a));
                assert(Formula::some_holds(kept, a));
            }
            if Formula::some_holds(kept, a) {
                let k = choose|k: int| 0 <= k < kept.len() && (#[trigger] kept[k]).holds(a);
                let i = choose|i: int| 0 <= i < all.len() && all[i] == kept[k];
                assert(fs[i].holds(a));
            }
            if kept.contains(Formula::One) {
                let k = choose|k: int| 0 <= k < kept.len() && kept[k] == Formula::One;
                assert(kept[k].holds(a));
            } else if kept.len() == 1 {
                if kept[0].holds(a) {
                    assert(Formula::some_holds(kept, a));
                }
            }
        },
        Formula::Prod(fs) => {
            let all = Formula::simplify_all(fs);
            assert forall|i: int| 0 <= i < fs.len() implies (#[trigger] all[i]).holds(a) == fs[i].holds(
                a,
            ) by {
                lemma_simplify_keeps_meaning(fs[i], a);
            }
            let kept = Formula::without(all, Formula::One);
            lemma_without(all, Formula::One);
            if Formula::all_hold(fs, a) {
                assert forall|k: int| 0 <= k < kept.len() implies (#[trigger] kept[k]).holds(a) by {
                    let i = choose|i: int| 0 <= i < all.len() && all[i] == kept[k];
                    assert(fs[i].holds(a));
                }
            }
            if Formula::all_hold(kept, a) {
                assert forall|i: int| 0 <= i < fs.len() implies (#[trigger] fs[i]).holds(a) by {
                    if all[i] != Formula::One {
                        let k = choose|k: int| 0 <= k < kept.len() && kept[k] == all[i];
                        assert(kept[k].holds(a));
                    }
                }
            }
            if kept.contains(Formula::Zero) {
                let k = choose|k: int| 0 <= k < kept.len() && kept[k] == Formula::Zero;
                assert(!kept[k].holds(a));
            } else if kept.len() == 1 {
                if kept[0].holds(a) {
                    assert forall|k: int| 0 <= k < kept.len() implies (#[trigger] kept[k]).holds(a) by {}
                }
            }
        },
        Formula::Neg(g) => {
            lemma_simplify_keeps_meaning(*g, a);
        },
        _ => {},
    }
}

/// An assignment under which every one of the literals is true.
pub open spec fn extends(a: spec_fn(int) -> bool, lits: Seq<i32>) -> bool {
    forall|k: int| 0 <= k < lits.len() ==> lit_holds(a, #[trigger] lits[k] as int)
}

/// Conditioning is a partial assignment: under every assignment that makes
/// the literals true, the conditioned formula is true exactly where the
/// formula is.
pub proof fn lemma_condition_is_partial_assignment(
    f: Formula,
    lits: Seq<i32>,
    a: spec_fn(int) -> bool,
)
    requires
        extends(a, lits),
    ensures
        f.condition(lits).holds(a) == f.holds(a),
    decreases f,
{
    match f {
        Formula::Val(v) => {
            if lits.contains(v) {
                let k = choose|k: int| 0 <= k < lits.len() && lits[k] == v;
                assert(lit_holds(a, lits[k] as int));
            } else if v > i32::MIN && lits.contains((-v) as i32) {
                let k = choose|k: int| 0 <= k < lits.len() && lits[k] == (-v) as i32;
                assert(lit_holds(a, lits[k] as int));
            }
        },
        Formula::Sum(fs) => {
            let all = Formula::condition_all(fs, lits);
            assert forall|i: int| 0 <= i < fs.len() implies (#[trigger] all[i]).holds(a) == fs[i].holds(
                a,
            ) by {
                lemma_condition_is_partial_assignment(fs[i], lits, a);
            }
            if Formula::some_holds(fs, a) {
                let i = choose|i: int| 0 <= i < fs.len() && (#[trigger] fs[i]).holds(a);
                assert(all[i].holds(a));
            }
            if Formula::some_holds(all, a) {
                let i = choose|i: int| 0 <= i < all.len() && (#[trigger] all[i]).holds(a);
                assert(fs[i].holds(a));
            }
        },
        Formula::Prod(fs) => {
            let all = Formula::condition_all(fs, lits);
            assert forall|i: int| 0 <= i < fs.len() implies (#[trigger] all[i]).holds(a) == fs[i].holds(
                a,
            ) by {
                lemma_condition_is_partial_assignment(fs[i], lits, a);
            }
            if Formula::all_hold(fs, a) {
                assert forall|i: int| 0 <= i < all.len() implies (#[trigger] all[i]).holds(a) by {
                    assert(fs[i].holds(a));
                }
            }
            if Formula::all_hold(all, a) {
                assert forall|i: int| 0 <= i < fs.len() implies (#[trigger] fs[i]).holds(a) by {
                    assert(all[i].holds(a));
                }
            }
        },
        Formula::Neg(g) => {
            lemma_condition_is_partial_assignment(*g, lits, a);
        },
        _ => {},
    }
}

/// Whether the integer `x` is among some literals.
pub open spec fn has_literal(lits: Seq<i32>, x: int) -> bool {
    exists|k: int| 0 <= k < lits.len() && (#[trigger] lits[k]) as int == x
}

/// No two of the literals are each other's negation, and none is zero.
pub open spec fn consistent(lits: Seq<i32>) -> bool {
    forall|j: int, k: int|
        0 <= j < lits.len() && 0 <= k < lits.len() ==> (#[trigger] lits[j]) as int != -((
        #[trigger] lits[k]) as int)
}

/// The assignment `a` with the literals laid over it: a variable whose
/// literal is among them is true, one whose negation is among them is
/// false, and every other variable is as in `a`.
pub open spec fn under(a: spec_fn(int) -> bool, lits: Seq<i32>) -> spec_fn(int) -> bool {
    |v: int|
        if has_literal(lits, v) {
            true
        } else if has_literal(lits, -v) {
            false
        } else {
            a(v)
        }
}

/// Conditioning on consistent literals is the formula under those
/// literals: the conditioned formula is true under an assignment exactly
/// where the formula is true under the assignment with the literals laid
/// over it.
pub proof fn lemma_condition_lays_literals_over(
    f: Formula,
    lits: Seq<i32>,
    a: spec_fn(int) -> bool,
)
    requires
        consistent(lits),
    ensures
        f.condition(lits).holds(a) == f.holds(under(a, lits)),
    decreases f,
{
    let b = under(a, lits);
    match f {
        Formula::Val(v) => {
            if lits.contains(v) {
                let k = choose|k: int| 0 <= k < lits.len() && lits[k] == v;
                assert(lits[k] as int == v as int);
                assert(has_literal(lits, v as int));
                if v < 0 {
                    if has_literal(lits, -(v as int)) {
                        let j = choose|j: int|
                            0 <= j < lits.len() && (#[trigger] lits[j]) as int == -(v as int);
                        assert(lits[j] as int != -(lits[k] as int));
                    }
                }
                assert(lits[k] as int != -(lits[k] as int));
            } else if v > i32::MIN && lits.contains((-v) as i32) {
                let k = choose|k: int| 0 <= k < lits.len() && lits[k] == (-v) as i32;
                assert(lits[k] as int == -(v as int));
                assert(has_literal(lits, -(v as int)));
                assert(lits[k] as int != -(lits[k] as int));
                if has_literal(lits, v as int) {
                    let j = choose|j: int| 0 <= j < lits.len() && (#[trigger] lits[j]) as int == v as int;
                    assert(lits[j] == v);
                }
            } else {
                if has_literal(lits, v as int) {
                    let j = choose|j: int| 0 <= j < lits.len() && (#[trigger] lits[j]) as int == v as int;
                    assert(lits[j] == v);
                }
                if has_literal(lits, -(v as int)) {
                    let j = choose|j: int|
                        0 <= j < lits.len() && (#[trigger] lits[j]) as int == -(v as int);
                    assert(lits[j] == (-v) as i32);
                }
            }
        },
        Formula::Sum(fs) => {
            let all = Formula::condition_all(fs, lits);
            assert forall|i: int| 0 <= i < fs.len() implies (#[trigger] all[i]).holds(a) == fs[i].holds(
                b,
            ) by {
                lemma_condition_lays_literals_over(fs[i], lits, a);
            }
            if Formula::some_holds(fs, b) {
                let i = choose|i: int| 0 <= i < fs.len() && (#[trigger] fs[i]).holds(b);
                assert(all[i].holds(a));
            }
            if Formula::some_holds(all, a) {
                let i = choose|i: int| 0 <= i < all.len() && (#[trigger] all[i]).holds(a);
                assert(fs[i].holds(b));
            }
        },
        Formula::Prod(fs) => {
            let all = Formula::condition_all(fs, lits);
            assert forall|i: int| 0 <= i < fs.len() implies (#[trigger] all[i]).holds(a) == fs[i].holds(
                b,
            ) by {
                lemma_condition_lays_literals_over(fs[i], lits, a);
            }
            if Formula::all_hold(fs, b) {
                assert forall|i: int| 0 <= i < all.len() implies (#[trigger] all[i]).holds(a) by {
                    assert(fs[i].holds(b));
                }
            }
            if Formula::all_hold(all, a) {
                assert forall|i: int| 0 <= i < fs.len() implies (#[trigger] fs[i]).holds(b) by {
                    assert(all[i].holds(a));
                }
            }
        },
        Formula::Neg(g) => {
            lemma_condition_lays_literals_over(*g, lits, a);
        },
        _ => {},
    }
}

} // verus!
