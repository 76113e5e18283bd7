//! Reading the DIMACS text of a formula gives the formula back.
use vstd::prelude::*;
use crate::circuit::compile::{
    clause_line, clause_lines, clause_literals, dimacs_header, dimacs_text, joined,
};
use crate::circuit::parser::{
    cnf_of_clauses, dimacs_clause, dimacs_clauses, dimacs_formula, dimacs_skipped, ParseError,
};
use crate::circuit::rcircuit::{clauses_of_cnf, Formula};
use crate::circuit::text::{
    all_digits, decimal, digits_value, is_digit, is_space, lines, literal_value, signed_decimal,
    tokens,
};

verus! {

/// A text without line feeds.
pub open spec fn one_line(s: Seq<u8>) -> bool {
    forall|i: int| 0 <= i < s.len() ==> #[trigger] s[i] != 10
}

/// A text without white space.
pub open spec fn one_token(s: Seq<u8>) -> bool {
    forall|i: int| 0 <= i < s.len() ==> !is_space(#[trigger] s[i])
}

/// A text made of digits and minus signs.
pub open spec fn numeral_bytes(s: Seq<u8>) -> bool {
    forall|i: int| 0 <= i < s.len() ==> is_digit(#[trigger] s[i]) || s[i] == 45
}

/// A line that follows a line feed, or stands at the beginning, is one more line.
pub proof fn lemma_lines_push_line(t: Seq<u8>, l: Seq<u8>)
    requires
        t.len() == 0 || t.last() == 10,
        l.len() > 0,
        one_line(l),
    ensures
        lines(t + l) == lines(t).push(l),
    decreases l.len(),
{
    let s = t + l;
    let init = l.drop_last();
    assert(s.drop_last() =~= t + init);
    assert(s.last() == l.last());
    assert(l[l.len() - 1] != 10);
    if init.len() == 0 {
        assert(t + init =~= t);
        assert(l =~= seq![l.last()]);
    } else {
        assert(one_line(init)) by {
            assert forall|i: int| 0 <= i < init.len() implies #[trigger] init[i] != 10 by {
                assert(init[i] == l[i]);
            }
        }
        lemma_lines_push_line(t, init);
        assert((t + init).last() == init.last());
        assert(init[init.len() - 1] != 10);
        let before = lines(t).push(init);
        assert(before.drop_last() =~= lines(t));
        assert(before.last().push(l.last()) =~= l);
    }
}

/// A token that follows white space, or stands at the beginning, is one more token.
pub proof fn lemma_tokens_push_token(t: Seq<u8>, w: Seq<u8>)
    requires
        t.len() == 0 || is_space(t.last()),
        w.len() > 0,
        one_token(w),
    ensures
        tokens(t + w) == tokens(t).push(w),
    decreases w.len(),
{
    let s = t + w;
    let init = w.drop_last();
    assert(s.drop_last() =~= t + init);
    assert(s.last() == w.last());
    assert(!is_space(w[w.len() - 1]));
    if init.len() == 0 {
        assert(t + init =~= t);
        assert(w =~= seq![w.last()]);
    } else {
        assert(one_token(init)) by {
            assert forall|i: int| 0 <= i < init.len() implies !is_space(#[trigger] init[i]) by {
                assert(init[i] == w[i]);
            }
        }
        lemma_tokens_push_token(t, init);
        assert((t + init).last() == init.last());
        assert(!is_space(init[init.len() - 1]));
        let before = tokens(t).push(init);
        assert(before.drop_last() =~= tokens(t));
        assert(before.last().push(w.last()) =~= w);
    }
}

/// The decimal numeral of a number consists of digits, of at least one, and
/// denotes the number.
pub proof fn lemma_decimal(n: nat)
    ensures
        decimal(n).len() > 0,
        all_digits(decimal(n)),
        digits_value(decimal(n)) == n,
    decreases n,
{
    if n < 10 {
        let s = decimal(n);
        assert(s.drop_last() =~= Seq::<u8>::empty());
        assert(digits_value(s.drop_last()) == 0);
    } else {
        lemma_decimal(n / 10);
        let init = decimal(n / 10);
        let s = decimal(n);
        assert(s.drop_last() =~= init);
        assert forall|i: int| 0 <= i < s.len() implies is_digit(#[trigger] s[i]) by {
            if i < init.len() {
                assert(s[i] == init[i]);
            }
        }
    }
}

/// The numeral of a 32-bit integer is made of digits and minus signs, is
/// not empty, and denotes the integer.
pub proof fn lemma_signed_decimal(v: i32)
    ensures
        signed_decimal(v as int).len() > 0,
        numeral_bytes(signed_decimal(v as int)),
        literal_value(signed_decimal(v as int)) == Some(v),
{
    let s = signed_decimal(v as int);
    if v < 0 {
        let n = (-(v as int)) as nat;
        lemma_decimal(n);
        assert(s.skip(1) =~= decimal(n));
        assert forall|i: int| 0 <= i < s.len() implies is_digit(#[trigger] s[i]) || s[i] == 45 by {
            if i > 0 {
                assert(s[i] == decimal(n)[i - 1]);
            }
        }
    } else {
        lemma_decimal(v as nat);
        assert(is_digit(s[0]));
    }
}

/// A text of digits and minus signs holds no white space and no line feed.
pub proof fn lemma_numeral_is_token(s: Seq<u8>)
    requires
        numeral_bytes(s),
    ensures
        one_token(s),
        one_line(s),
{
    assert forall|i: int| 0 <= i < s.len() implies !is_space(#[trigger] s[i]) by {
        assert(is_digit(s[i]) || s[i] == 45);
    }
    assert forall|i: int| 0 <= i < s.len() implies #[trigger] s[i] != 10 by {
        assert(is_digit(s[i]) || s[i] == 45);
    }
}

/// The numerals of some literals.
pub open spec fn numerals(lits: Seq<i32>) -> Seq<Seq<u8>> {
    Seq::new(lits.len(), |j: int| signed_decimal(lits[j] as int))
}

/// The joined numerals of the first literals: their tokens are the
/// numerals, they hold no line feed, and they end in no white space.
pub proof fn lemma_joined(lits: Seq<i32>, n: int)
    requires
        0 <= n <= lits.len(),
    ensures
        tokens(joined(lits, n)) == numerals(lits.take(n)),
        one_line(joined(lits, n)),
        n > 0 ==> joined(lits, n).len() > 0 && !is_space(joined(lits, n).last()),
        n > 0 ==> joined(lits, n)[0] == signed_decimal(lits[0] as int)[0],
        n == 0 ==> joined(lits, n).len() == 0,
    decreases n,
{
    let s = joined(lits, n);
    if n == 0 {
        assert(numerals(lits.take(0)) =~= Seq::<Seq<u8>>::empty());
    } else {
        let w = signed_decimal(lits[n - 1] as int);
        lemma_signed_decimal(lits[n - 1]);
        lemma_numeral_is_token(w);
        assert(!is_space(w[w.len() - 1]));
        if n == 1 {
            lemma_tokens_push_token(Seq::<u8>::empty(), w);
            assert(Seq::<u8>::empty() + w =~= w);
            assert(numerals(lits.take(1)) =~= Seq::<Seq<u8>>::empty().push(w));
        } else {
            lemma_joined(lits, n - 1);
            let before = joined(lits, n - 1);
            let spaced = before + seq![32u8];
            assert(spaced.drop_last() =~= before);
            assert(tokens(spaced) == tokens(before));
            lemma_tokens_push_token(spaced, w);
            assert(numerals(lits.take(n)) =~= numerals(lits.take(n - 1)).push(w));
            assert(s == spaced + w);
            assert forall|i: int| 0 <= i < s.len() implies #[trigger] s[i] != 10 by {
                if i < before.len() {
                    assert(s[i] == before[i]);
                } else if i > before.len() {
                    assert(s[i] == w[i - before.len() - 1]);
                }
            }
            assert(s.last() == w.last());
            assert(s[0] == before[0]);
        }
    }
}

/// Reading the numerals of literals other than zero, closed by a token
/// `0`, gives the literals.
pub proof fn lemma_dimacs_clause(lits: Seq<i32>, k: int)
    requires
        0 <= k <= lits.len(),
        forall|j: int| 0 <= j < lits.len() ==> #[trigger] lits[j] != 0,
    ensures
        dimacs_clause(numerals(lits).push(seq![48u8]).skip(k)) == Some(lits.skip(k)),
    decreases lits.len() - k,
{
    let toks = numerals(lits).push(seq![48u8]).skip(k);
    if k == lits.len() {
        assert(toks[0] == seq![48u8]);
        assert(literal_value(seq![48u8]) == Some(0i32)) by {
            let z = seq![48u8];
            assert(z.drop_last() =~= Seq::<u8>::empty());
            assert(digits_value(z.drop_last()) == 0);
            assert(all_digits(z));
        }
        assert(lits.skip(k) =~= Seq::<i32>::empty());
    } else {
        lemma_dimacs_clause(lits, k + 1);
        assert(toks[0] == signed_decimal(lits[k] as int));
        lemma_signed_decimal(lits[k]);
        assert(toks.skip(1) =~= numerals(lits).push(seq![48u8]).skip(k + 1));
        assert(seq![lits[k]] + lits.skip(k + 1) =~= lits.skip(k));
    }
}

/// The line of a clause is one line, is not passed over, and reading it
/// gives the literals of the clause.
pub proof fn lemma_clause_line(lits: Seq<i32>)
    requires
        forall|j: int| 0 <= j < lits.len() ==> #[trigger] lits[j] != 0,
    ensures
        clause_line(lits).len() > 0,
        one_line(clause_line(lits)),
        clause_line(lits).last() != 10,
        !dimacs_skipped(clause_line(lits)),
        dimacs_clause(tokens(clause_line(lits))) == Some(lits),
{
    let n = lits.len() as int;
    let body = joined(lits, n);
    let line = clause_line(lits);
    lemma_joined(lits, n);
    let spaced = body + seq![32u8];
    assert(spaced.drop_last() =~= body);
    assert(tokens(spaced) == tokens(body));
    lemma_tokens_push_token(spaced, seq![48u8]);
    assert(line =~= spaced + seq![48u8]);
    assert(lits.take(n) =~= lits);
    lemma_dimacs_clause(lits, 0);
    assert(numerals(lits).push(seq![48u8]).skip(0) =~= numerals(lits).push(seq![48u8]));
    assert(lits.skip(0) =~= lits);
    assert forall|i: int| 0 <= i < line.len() implies #[trigger] line[i] != 10 by {
        if i < body.len() {
            assert(line[i] == body[i]);
        }
    }
    if n > 0 {
        lemma_signed_decimal(lits[0]);
        let w = signed_decimal(lits[0] as int);
        assert(is_digit(w[0]) || w[0] == 45);
        assert(line[0] == body[0]);
    } else {
        assert(line[0] == 32);
    }
}

/// A text of ASCII bytes.
pub open spec fn ascii_bytes(s: Seq<u8>) -> bool {
    forall|i: int| 0 <= i < s.len() ==> #[trigger] s[i] < 128
}

/// Two ASCII texts, one after the other, are an ASCII text.
pub proof fn lemma_ascii_concat(a: Seq<u8>, b: Seq<u8>)
    requires
        ascii_bytes(a),
        ascii_bytes(b),
    ensures
        ascii_bytes(a + b),
{
    assert forall|i: int| 0 <= i < (a + b).len() implies #[trigger] (a + b)[i] < 128 by {
        if i < a.len() {
            assert((a + b)[i] == a[i]);
        } else {
            assert((a + b)[i] == b[i - a.len()]);
        }
    }
}

/// The numerals of integers are ASCII texts.
pub proof fn lemma_numerals_ascii(v: i32, n: nat)
    ensures
        ascii_bytes(signed_decimal(v as int)),
        ascii_bytes(decimal(n)),
{
    lemma_signed_decimal(v);
    lemma_decimal(n);
    let s = signed_decimal(v as int);
    assert forall|i: int| 0 <= i < s.len() implies #[trigger] s[i] < 128 by {
        assert(is_digit(s[i]) || s[i] == 45);
    }
    let d = decimal(n);
    assert forall|i: int| 0 <= i < d.len() implies #[trigger] d[i] < 128 by {
        assert(is_digit(d[i]));
    }
}

/// The joined numerals of literals are an ASCII text.
pub proof fn lemma_joined_ascii(lits: Seq<i32>, n: int)
    requires
        0 <= n <= lits.len(),
    ensures
        ascii_bytes(joined(lits, n)),
    decreases n,
{
    if n > 0 {
        lemma_numerals_ascii(lits[n - 1], 0);
        if n > 1 {
            lemma_joined_ascii(lits, n - 1);
            lemma_ascii_concat(joined(lits, n - 1), seq![32u8]);
            lemma_ascii_concat(joined(lits, n - 1) + seq![32u8], signed_decimal(lits[n - 1] as int));
        }
    }
}

/// The lines of clauses are an ASCII text.
pub proof fn lemma_clause_lines_ascii(fs: Seq<Formula>, n: int)
    requires
        0 <= n <= fs.len(),
    ensures
        ascii_bytes(clause_lines(fs, n)),
    decreases n,
{
    if n > 0 {
        let lits = clause_literals(fs[n - 1]);
        lemma_joined_ascii(lits, lits.len() as int);
        lemma_ascii_concat(joined(lits, lits.len() as int), seq![32u8, 48u8]);
        if n > 1 {
            lemma_clause_lines_ascii(fs, n - 1);
            lemma_ascii_concat(clause_lines(fs, n - 1), seq![10u8]);
            lemma_ascii_concat(clause_lines(fs, n - 1) + seq![10u8], clause_line(lits));
        }
    }
}

/// The DIMACS text of a conjunction is an ASCII text.
pub proof fn lemma_dimacs_text_ascii(f: Formula)
    requires
        f is Prod,
    ensures
        ascii_bytes(dimacs_text(f)),
{
    let fs = f->Prod_0;
    crate::circuit::rcircuit::lemma_nb_vars_nonnegative(f);
    let a = decimal(f.nb_vars() as nat);
    let b = decimal(fs.len());
    lemma_numerals_ascii(0, f.nb_vars() as nat);
    lemma_numerals_ascii(0, fs.len());
    let head = seq![112u8, 32u8, 99u8, 110u8, 102u8, 32u8];
    lemma_ascii_concat(head, a);
    lemma_ascii_concat(head + a, seq![32u8]);
    lemma_ascii_concat(head + a + seq![32u8], b);
    lemma_ascii_concat(head + a + seq![32u8] + b, seq![10u8]);
    lemma_clause_lines_ascii(fs, fs.len() as int);
    lemma_ascii_concat(dimacs_header(f.nb_vars() as nat, fs.len()), clause_lines(fs, fs.len() as int));
}

/// The bytes of a string that holds an ASCII text are the text.
pub proof fn lemma_ascii_encoding(chars: Seq<char>, bytes: Seq<u8>)
    requires
        ascii_bytes(bytes),
        chars == crate::circuit::text::ascii(bytes),
    ensures
        vstd::utf8::encode_utf8(chars) == bytes,
{
    assert(vstd::utf8::is_ascii_chars(chars)) by {
        assert forall|i: int| 0 <= i < chars.len() implies '\0' <= #[trigger] chars[i] <= '\u{7f}' by {
            assert(bytes[i] < 128);
        }
    }
    vstd::utf8::is_ascii_chars_encode_utf8(chars);
    let encoded = vstd::utf8::encode_utf8(chars);
    assert forall|i: int| 0 <= i < bytes.len() implies encoded[i] == bytes[i] by {
        assert(chars[i] as u8 == encoded[i]);
        assert(bytes[i] < 128);
    }
    assert(encoded =~= bytes);
}

/// The header without its line feed.
pub open spec fn header_line(nb_vars: nat, nb_clauses: nat) -> Seq<u8> {
    seq![112u8, 32u8, 99u8, 110u8, 102u8, 32u8] + decimal(nb_vars) + seq![32u8] + decimal(
        nb_clauses,
    )
}

/// The header is one line that begins with `p`.
pub proof fn lemma_header(nb_vars: nat, nb_clauses: nat)
    ensures
        dimacs_header(nb_vars, nb_clauses) == header_line(nb_vars, nb_clauses) + seq![10u8],
        header_line(nb_vars, nb_clauses).len() > 0,
        header_line(nb_vars, nb_clauses)[0] == 112,
        one_line(header_line(nb_vars, nb_clauses)),
        lines(dimacs_header(nb_vars, nb_clauses)) == seq![header_line(nb_vars, nb_clauses)],
{
    let hl = header_line(nb_vars, nb_clauses);
    let head = seq![112u8, 32u8, 99u8, 110u8, 102u8, 32u8];
    let a = decimal(nb_vars);
    let b = decimal(nb_clauses);
    lemma_decimal(nb_vars);
    lemma_decimal(nb_clauses);
    assert(dimacs_header(nb_vars, nb_clauses) =~= hl + seq![10u8]);
    assert(hl[0] == head[0]);
    assert forall|i: int| 0 <= i < hl.len() implies #[trigger] hl[i] != 10 by {
        if i < 6 {
            assert(hl[i] == head[i]);
        } else if i < 6 + a.len() {
            assert(hl[i] == a[i - 6]);
            assert(is_digit(a[i - 6]));
        } else if i == 6 + a.len() {
            assert(hl[i] == 32);
        } else {
            assert(hl[i] == b[i - 7 - a.len()]);
            assert(is_digit(b[i - 7 - a.len()]));
        }
    }
    lemma_lines_push_line(Seq::<u8>::empty(), hl);
    assert(Seq::<u8>::empty() + hl =~= hl);
    assert(lines(Seq::<u8>::empty()) =~= Seq::<Seq<u8>>::empty());
    let whole = hl + seq![10u8];
    assert(whole.drop_last() =~= hl);
    assert(hl[hl.len() - 1] != 10);
    assert(lines(hl) =~= seq![hl]);
}

/// No clause of the conjunctive normal form holds the literal zero.
pub open spec fn nonzero_literals(f: Formula) -> bool {
    forall|i: int, j: int|
        0 <= i < clauses_of_cnf(f).len() && 0 <= j < clauses_of_cnf(f)[i].len() ==> (
        #[trigger] clauses_of_cnf(f)[i][j]) != 0
}

/// The lines of the first `n` clauses.
pub open spec fn lines_of_clauses(clauses: Seq<Seq<i32>>, n: int) -> Seq<Seq<u8>> {
    Seq::new(n as nat, |i: int| clause_line(clauses[i]))
}

/// The lines of a header and the lines of the first `n` clauses of a
/// formula are the line of the header and the line of each clause.
pub proof fn lemma_text_lines(f: Formula, head: Seq<u8>, n: int)
    requires
        f is Prod,
        nonzero_literals(f),
        0 <= n <= f->Prod_0.len(),
        head.len() > 0,
        one_line(head),
    ensures
        lines(head + seq![10u8] + clause_lines(f->Prod_0, n)) == seq![head] + lines_of_clauses(
            clauses_of_cnf(f),
            n,
        ),
        n > 0 ==> clause_lines(f->Prod_0, n).len() > 0 && clause_lines(f->Prod_0, n).last() != 10,
        n == 0 ==> clause_lines(f->Prod_0, n).len() == 0,
    decreases n,
{
    let fs = f->Prod_0;
    let cls = clauses_of_cnf(f);
    let start = head + seq![10u8];
    if n == 0 {
        assert(start + clause_lines(fs, 0) =~= start);
        assert(start.drop_last() =~= head);
        assert(head[head.len() - 1] != 10);
        lemma_lines_push_line(Seq::<u8>::empty(), head);
        assert(Seq::<u8>::empty() + head =~= head);
        assert(lines(Seq::<u8>::empty()) =~= Seq::<Seq<u8>>::empty());
        assert(lines(head) =~= seq![head]);
        assert(seq![head] + lines_of_clauses(cls, 0) =~= seq![head]);
    } else {
        lemma_text_lines(f, head, n - 1);
        let lits = clause_literals(fs[n - 1]);
        assert(cls[n - 1] == lits);
        assert forall|j: int| 0 <= j < lits.len() implies #[trigger] lits[j] != 0 by {
            assert(cls[n - 1][j] != 0);
        }
        lemma_clause_line(lits);
        let line = clause_line(lits);
        let before = start + clause_lines(fs, n - 1);
        let fed = if n == 1 {
            before
        } else {
            before + seq![10u8]
        };
        if n > 1 {
            assert(fed.drop_last() =~= before);
            assert(before.last() == clause_lines(fs, n - 1).last());
            assert(lines(fed) == lines(before));
        } else {
            assert(before =~= start);
        }
        assert(fed.last() == 10);
        lemma_lines_push_line(fed, line);
        assert(start + clause_lines(fs, n) =~= fed + line);
        assert(seq![head] + lines_of_clauses(cls, n) =~= (seq![head] + lines_of_clauses(
            cls,
            n - 1,
        )).push(line));
        assert(clause_lines(fs, n).last() == line.last());
    }
}

/// Reading the line of a header and the lines of clauses gives the clauses.
pub proof fn lemma_read_lines(head: Seq<u8>, clauses: Seq<Seq<i32>>, n: int)
    requires
        head.len() > 0,
        head[0] == 112,
        0 <= n <= clauses.len(),
        forall|i: int, j: int|
            0 <= i < clauses.len() && 0 <= j < clauses[i].len() ==> (#[trigger] clauses[i][j]) != 0,
    ensures
        dimacs_clauses(seq![head] + lines_of_clauses(clauses, clauses.len() as int), n + 1) == Ok::<
            Seq<Seq<i32>>,
            usize,
        >(clauses.take(n)),
    decreases n,
{
    let all = seq![head] + lines_of_clauses(clauses, clauses.len() as int);
    if n == 0 {
        assert(all[0] == head);
        assert(dimacs_clauses(all, 0) == Ok::<Seq<Seq<i32>>, usize>(Seq::empty()));
        assert(clauses.take(0) =~= Seq::<Seq<i32>>::empty());
    } else {
        lemma_read_lines(head, clauses, n - 1);
        assert(all[n] == clause_line(clauses[n - 1]));
        assert forall|j: int| 0 <= j < clauses[n - 1].len() implies #[trigger] clauses[n - 1][j]
            != 0 by {
            assert(clauses[n - 1][j] != 0);
        }
        lemma_clause_line(clauses[n - 1]);
        assert(clauses.take(n) =~= clauses.take(n - 1).push(clauses[n - 1]));
    }
}

/// The conjunctive normal form of the clauses of a formula in conjunctive
/// normal form means what the formula means.
pub proof fn lemma_clauses_keep_meaning(f: Formula, a: spec_fn(int) -> bool)
    requires
        f.is_cnf(),
    ensures
        cnf_of_clauses(clauses_of_cnf(f)).holds(a) == f.holds(a),
{
    let fs = f->Prod_0;
    let gs = cnf_of_clauses(clauses_of_cnf(f))->Prod_0;
    assert forall|i: int| 0 <= i < fs.len() implies (#[trigger] gs[i]).holds(a) == fs[i].holds(a) by {
        assert(fs[i].is_literal_clause());
        let lits = gs[i]->Sum_0;
        match fs[i] {
            Formula::Val(v) => {
                assert(lits[0] == Formula::Val(v));
                if Formula::some_holds(lits, a) {
                    let j = choose|j: int| 0 <= j < lits.len() && (#[trigger] lits[j]).holds(a);
                    assert(lits[j] == Formula::Val(v));
                }
                if fs[i].holds(a) {
                    assert(lits[0].holds(a));
                }
            },
            Formula::Sum(ws) => {
                assert(Formula::all_literals(ws));
                assert forall|j: int| 0 <= j < ws.len() implies lits[j] == #[trigger] ws[j] by {
                    assert(ws[j] is Val);
                }
                assert(lits =~= ws);
            },
            _ => {},
        }
    }
    if Formula::all_hold(fs, a) {
        assert forall|i: int| 0 <= i < gs.len() implies (#[trigger] gs[i]).holds(a) by {
            assert(fs[i].holds(a));
        }
    }
    if Formula::all_hold(gs, a) {
        assert forall|i: int| 0 <= i < fs.len() implies (#[trigger] fs[i]).holds(a) by {
            assert(gs[i].holds(a));
        }
    }
}

/// The round trip through DIMACS. The text of a formula in conjunctive
/// normal form without the literal zero can be read, and what is read is
/// the conjunctive normal form of the clauses of the formula, which is true
/// under exactly the assignments under which the formula is true.
pub proof fn lemma_dimacs_round_trip(f: Formula, a: spec_fn(int) -> bool)
    requires
        f.is_cnf(),
        nonzero_literals(f),
    ensures
        dimacs_formula(dimacs_text(f)) == Ok::<Formula, ParseError>(
            cnf_of_clauses(clauses_of_cnf(f)),
        ),
        cnf_of_clauses(clauses_of_cnf(f)).holds(a) == f.holds(a),
{
    let fs = f->Prod_0;
    let n = fs.len() as int;
    let cls = clauses_of_cnf(f);
    crate::circuit::rcircuit::lemma_nb_vars_nonnegative(f);
    let head = header_line(f.nb_vars() as nat, fs.len());
    lemma_header(f.nb_vars() as nat, fs.len());
    lemma_text_lines(f, head, n);
    assert(dimacs_text(f) =~= head + seq![10u8] + clause_lines(fs, n));
    lemma_read_lines(head, cls, n);
    assert(cls.take(n) =~= cls);
    let all = seq![head] + lines_of_clauses(cls, n);
    assert(all.len() == n + 1);
    lemma_clauses_keep_meaning(f, a);
}

} // verus!
