//! A formula in conjunctive normal form as DIMACS text.
use std::rc::Rc;
use vstd::prelude::*;
use vstd::string::StringExecFns;
use crate::circuit::rcircuit::{formulas_of, Formula, RNode};
use crate::circuit::text::{ascii, decimal, push_signed, push_unsigned, signed_decimal};

verus! {

/// The literals of a clause: of a literal, itself; of a disjunction of
/// literals, its parts.
pub open spec fn clause_literals(f: Formula) -> Seq<i32> {
    match f {
        Formula::Val(v) => seq![v],
        Formula::Sum(fs) => Seq::new(fs.len(), |i: int| fs[i]->Val_0),
        _ => Seq::empty(),
    }
}

/// The numerals of the first `n` literals, with one space between two of them.
pub open spec fn joined(lits: Seq<i32>, n: int) -> Seq<u8>
    decreases n,
{
    if n <= 0 {
        Seq::empty()
    } else if n == 1 {
        signed_decimal(lits[0] as int)
    } else {
        joined(lits, n - 1) + seq![32u8] + signed_decimal(lits[n - 1] as int)
    }
}

/// The line of a clause: its literals and the closing ` 0`.
pub open spec fn clause_line(lits: Seq<i32>) -> Seq<u8> {
    joined(lits, lits.len() as int) + seq![32u8, 48u8]
}

/// The lines of the first `n` clauses, with a line feed between two of them.
pub open spec fn clause_lines(fs: Seq<Formula>, n: int) -> Seq<u8>
    decreases n,
{
    if n <= 0 {
        Seq::empty()
    } else if n == 1 {
        clause_line(clause_literals(fs[0]))
    } else {
        clause_lines(fs, n - 1) + seq![10u8] + clause_line(clause_literals(fs[n - 1]))
    }
}

/// The header `p cnf <variables> <clauses>` with its line feed.
pub open spec fn dimacs_header(nb_vars: nat, nb_clauses: nat) -> Seq<u8> {
    seq![112u8, 32u8, 99u8, 110u8, 102u8, 32u8] + decimal(nb_vars) + seq![32u8] + decimal(
        nb_clauses,
    ) + seq![10u8]
}

/// The DIMACS text of a formula in conjunctive normal form: the header, then
/// one line for each clause.
pub open spec fn dimacs_text(f: Formula) -> Seq<u8> {
    let fs = f->Prod_0;
    dimacs_header(f.nb_vars() as nat, fs.len()) + clause_lines(fs, fs.len() as int)
}

/// Appends the line of the clause that a node stands for.
fn push_clause_line(out: &mut String, node: &RNode)
    requires
        node@.is_literal_clause(),
    ensures
        final(out)@ == old(out)@ + ascii(clause_line(clause_literals(node@))),
{
    let ghost lits = clause_literals(node@);
    match node {
        RNode::Val(v) => {
            push_signed(out, *v);
        },
        RNode::Sum(vs) => {
            let ghost fs = formulas_of(vs@);
            let mut i: usize = 0;
            assert(old(out)@ + ascii(joined(lits, 0)) =~= old(out)@);
            while i < vs.len()
                invariant
                    i <= vs.len(),
                    fs == formulas_of(vs@),
                    Formula::all_literals(fs),
                    lits == clause_literals(Formula::Sum(fs)),
                    out@ == old(out)@ + ascii(joined(lits, i as int)),
                decreases vs.len() - i,
            {
                assert(fs[i as int] is Val);
                if i > 0 {
                    proof {
                        reveal_strlit(" ");
                        assert(" "@ =~= ascii(seq![32u8]));
                    }
                    out.append(" ");
                }
                let v = vs[i].value();
                assert(v == lits[i as int]);
                push_signed(out, v);
                assert(out@ =~= old(out)@ + ascii(joined(lits, i + 1)));
                i += 1;
            }
        },
        _ => {},
    }
    proof {
        reveal_strlit(" 0");
        assert(" 0"@ =~= ascii(seq![32u8, 48u8]));
    }
    out.append(" 0");
    assert(out@ =~= old(out)@ + ascii(clause_line(lits)));
}

/// The DIMACS text of a formula in conjunctive normal form: the header
/// `p cnf <variables> <clauses>`, then one line for each clause, with its
/// literals and a closing ` 0`.
pub fn to_dimacs(node: Rc<RNode>) -> (text: String)
    requires
        node@.is_cnf(),
    ensures
        text@ == ascii(dimacs_text(node@)),
        vstd::utf8::encode_utf8(text@) == dimacs_text(node@),
{
    let mut out = String::new();
    let nb_vars = node.nb_vars();
    match &*node {
        RNode::Prod(nodes) => {
            let ghost fs = formulas_of(nodes@);
            proof {
                reveal_strlit("p cnf ");
                reveal_strlit(" ");
                reveal_strlit("\n");
                assert("p cnf "@ =~= ascii(seq![112u8, 32u8, 99u8, 110u8, 102u8, 32u8]));
                assert(" "@ =~= ascii(seq![32u8]));
                assert("\n"@ =~= ascii(seq![10u8]));
                crate::circuit::rcircuit::lemma_nb_vars_nonnegative(node@);
            }
            out.append("p cnf ");
            push_unsigned(&mut out, nb_vars as u64);
            out.append(" ");
            push_unsigned(&mut out, nodes.len() as u64);
            out.append("\n");
            let ghost header = dimacs_header(node@.nb_vars() as nat, fs.len());
            assert(out@ =~= ascii(header));
            let mut i: usize = 0;
            assert(ascii(header) + ascii(clause_lines(fs, 0)) =~= ascii(header));
            while i < nodes.len()
                invariant
                    i <= nodes.len(),
                    fs == formulas_of(nodes@),
                    Formula::all_literal_clauses(fs),
                    out@ == ascii(header) + ascii(clause_lines(fs, i as int)),
                decreases nodes.len() - i,
            {
                assert(fs[i as int].is_literal_clause());
                if i > 0 {
                    proof {
                        reveal_strlit("\n");
                        assert("\n"@ =~= ascii(seq![10u8]));
                    }
                    out.append("\n");
                }
                push_clause_line(&mut out, &nodes[i]);
                assert(out@ =~= ascii(header) + ascii(clause_lines(fs, i + 1)));
                i += 1;
            }
            assert(ascii(header) + ascii(clause_lines(fs, fs.len() as int)) =~= ascii(
                dimacs_text(node@),
            ));
            proof {
                crate::circuit::dimacs_laws::lemma_dimacs_text_ascii(node@);
                crate::circuit::dimacs_laws::lemma_ascii_encoding(out@, dimacs_text(node@));
            }
        },
        _ => {},
    }
    out
}

} // verus!
