//! What conditioning a formula on a literal means for its models.

use crate::repr::clause::lemma_normalize_clause;
use crate::repr::cnf::{
    clause_holds, conditioned, formula_holds, lemma_normalize_each, lemma_without_literal,
    literal_holds, normalize, without_literal,
};
use crate::repr::var_label::Literal;
use vstd::prelude::*;

verus! {

/// Clauses with the same literals hold under the same assignments.
pub proof fn lemma_same_literals_hold(c: Seq<Literal>, d: Seq<Literal>, a: Seq<bool>)
    requires
        forall|l: Literal| c.contains(l) <==> d.contains(l),
    ensures
        clause_holds(c, a) == clause_holds(d, a),
{
    if clause_holds(c, a) {
        let i = choose|i: int| 0 <= i < c.len() && #[trigger] literal_holds(c[i], a);
        assert(c.contains(c[i]));
        assert(d.contains(c[i]));
        let j = choose|j: int| 0 <= j < d.len() && d[j] == c[i];
        assert(literal_holds(d[j], a));
    }
    if clause_holds(d, a) {
        let i = choose|i: int| 0 <= i < d.len() && #[trigger] literal_holds(d[i], a);
        assert(d.contains(d[i]));
        assert(c.contains(d[i]));
        let j = choose|j: int| 0 <= j < c.len() && c[j] == d[i];
        assert(literal_holds(c[j], a));
    }
}

/// The normal form of clauses holds under the assignments under which the
/// clauses hold.
pub proof fn lemma_normalize_holds(cs: Seq<Seq<Literal>>, a: Seq<bool>)
    ensures
        formula_holds(normalize(cs), a) == formula_holds(cs, a),
{
    lemma_normalize_each(cs);
    let n = normalize(cs);
    assert forall|k: int| 0 <= k < cs.len() implies clause_holds(#[trigger] n[k], a) == clause_holds(
        cs[k],
        a,
    ) by {
        lemma_normalize_clause(cs[k]);
        lemma_same_literals_hold(n[k], cs[k], a);
    }
    if formula_holds(cs, a) {
        assert forall|k: int| 0 <= k < n.len() implies clause_holds(#[trigger] n[k], a) by {
            assert(clause_holds(cs[k], a));
        }
    }
    if formula_holds(n, a) {
        assert forall|k: int| 0 <= k < cs.len() implies clause_holds(#[trigger] cs[k], a) by {
            assert(clause_holds(n[k], a));
        }
    }
}

/// What is left of the clauses under a literal holds if and only if each
/// clause without the literal holds once the negation of the literal is
/// gone from it.
pub proof fn lemma_conditioned_holds(cs: Seq<Seq<Literal>>, lit: Literal, a: Seq<bool>)
    ensures
        formula_holds(conditioned(cs, lit), a) <==> (forall|k: int|
            0 <= k < cs.len() && !(#[trigger] cs[k]).contains(lit) ==> clause_holds(
                without_literal(cs[k], lit.negated()),
                a,
            )),
    decreases cs.len(),
{
    let right = |xs: Seq<Seq<Literal>>|
        forall|k: int|
            0 <= k < xs.len() && !(#[trigger] xs[k]).contains(lit) ==> clause_holds(
                without_literal(xs[k], lit.negated()),
                a,
            );
    if cs.len() > 0 {
        let t = cs.drop_last();
        let c = cs.last();
        let d = without_literal(c, lit.negated());
        let ct = conditioned(t, lit);
        let cc = conditioned(cs, lit);
        lemma_conditioned_holds(t, lit, a);
        assert(formula_holds(ct, a) <==> right(t));
        assert(c == cs[cs.len() - 1]);
        if right(cs) {
            assert forall|k: int|
                0 <= k < t.len() && !(#[trigger] t[k]).contains(lit) implies clause_holds(
                without_literal(t[k], lit.negated()),
                a,
            ) by {
                assert(t[k] == cs[k]);
            }
        }
        if right(t) && (!c.contains(lit) ==> clause_holds(d, a)) {
            assert forall|k: int|
                0 <= k < cs.len() && !(#[trigger] cs[k]).contains(lit) implies clause_holds(
                without_literal(cs[k], lit.negated()),
                a,
            ) by {
                if k < t.len() {
                    assert(t[k] == cs[k]);
                }
            }
        }
        if !c.contains(lit) {
            assert(cc == ct.push(d));
            if formula_holds(cc, a) {
                assert forall|k: int| 0 <= k < ct.len() implies clause_holds(#[trigger] ct[k], a) by {
                    assert(cc[k] == ct[k]);
                }
                assert(cc[ct.len() as int] == d);
            }
            if formula_holds(ct, a) && clause_holds(d, a) {
                assert forall|k: int| 0 <= k < cc.len() implies clause_holds(#[trigger] cc[k], a) by {
                    if k < ct.len() {
                        assert(cc[k] == ct[k]);
                    }
                }
            }
        }
    }
}

/// Under an assignment that makes `lit` true, a clause holds if and only
/// if it holds once the negation of `lit` is gone from it; a clause that
/// holds `lit` holds.
pub proof fn lemma_without_negation_holds(c: Seq<Literal>, lit: Literal, a: Seq<bool>)
    requires
        literal_holds(lit, a),
    ensures
        clause_holds(without_literal(c, lit.negated()), a) == clause_holds(c, a),
        c.contains(lit) ==> clause_holds(c, a),
{
    let d = without_literal(c, lit.negated());
    lemma_without_literal(c, lit.negated());
    if clause_holds(c, a) {
        let i = choose|i: int| 0 <= i < c.len() && #[trigger] literal_holds(c[i], a);
        assert(c[i] != lit.negated());
        assert(c.contains(c[i]));
        assert(d.contains(c[i]));
        let j = choose|j: int| 0 <= j < d.len() && d[j] == c[i];
        assert(literal_holds(d[j], a));
    }
    if clause_holds(d, a) {
        let i = choose|i: int| 0 <= i < d.len() && #[trigger] literal_holds(d[i], a);
        assert(d.contains(d[i]));
        assert(c.contains(d[i]));
        let j = choose|j: int| 0 <= j < c.len() && c[j] == d[i];
        assert(literal_holds(c[j], a));
    }
    if c.contains(lit) {
        let j = choose|j: int| 0 <= j < c.len() && c[j] == lit;
        assert(literal_holds(c[j], a));
    }
}

/// Conditioning keeps the models: under an assignment that makes `lit`
/// true, the formula that `condition` gives for `lit` holds if and only if
/// the formula itself does. A clause that is made of the negation of `lit`
/// alone is left empty, and makes both false.
pub proof fn lemma_condition_keeps_models(cs: Seq<Seq<Literal>>, lit: Literal, a: Seq<bool>)
    requires
        literal_holds(lit, a),
    ensures
        formula_holds(normalize(conditioned(cs, lit)), a) == formula_holds(cs, a),
{
    lemma_normalize_holds(conditioned(cs, lit), a);
    lemma_conditioned_holds(cs, lit, a);
    if formula_holds(cs, a) {
        assert forall|k: int|
            0 <= k < cs.len() && !(#[trigger] cs[k]).contains(lit) implies clause_holds(
            without_literal(cs[k], lit.negated()),
            a,
        ) by {
            lemma_without_negation_holds(cs[k], lit, a);
        }
    }
    if formula_holds(conditioned(cs, lit), a) {
        assert forall|k: int| 0 <= k < cs.len() implies clause_holds(#[trigger] cs[k], a) by {
            lemma_without_negation_holds(cs[k], lit, a);
        }
    }
}

/// The cofactor identity: a formula holds under an assignment if and only
/// if the cofactor for the value that the assignment gives `x` does.
pub proof fn lemma_cofactor_identity(cs: Seq<Seq<Literal>>, x: Literal, a: Seq<bool>)
    requires
        0 <= x.var() < a.len(),
    ensures
        formula_holds(cs, a) == (if literal_holds(x, a) {
            formula_holds(normalize(conditioned(cs, x)), a)
        } else {
            formula_holds(normalize(conditioned(cs, x.negated())), a)
        }),
{
    if literal_holds(x, a) {
        lemma_condition_keeps_models(cs, x, a);
    } else {
        assert(literal_holds(x.negated(), a));
        assert(x.negated().negated() == x);
        lemma_condition_keeps_models(cs, x.negated(), a);
    }
}

/// No clause of what is left under a literal holds the variable of the
/// literal, so that the value of the variable does not matter to it.
pub proof fn lemma_conditioned_forgets(cs: Seq<Seq<Literal>>, lit: Literal, a: Seq<bool>, b: bool)
    requires
        0 <= lit.var() < a.len(),
    ensures
        formula_holds(conditioned(cs, lit), a.update(lit.var(), b)) == formula_holds(
            conditioned(cs, lit),
            a,
        ),
{
    let other = a.update(lit.var(), b);
    lemma_conditioned_holds(cs, lit, a);
    lemma_conditioned_holds(cs, lit, other);
    assert forall|k: int| 0 <= k < cs.len() && !(#[trigger] cs[k]).contains(lit) implies clause_holds(
        without_literal(cs[k], lit.negated()),
        a,
    ) == clause_holds(without_literal(cs[k], lit.negated()), other) by {
        let d = without_literal(cs[k], lit.negated());
        lemma_without_literal(cs[k], lit.negated());
        assert forall|i: int| 0 <= i < d.len() implies literal_holds(#[trigger] d[i], a)
            == literal_holds(d[i], other) by {
            assert(d.contains(d[i]));
            assert(cs[k].contains(d[i]));
            assert(d[i] != lit && d[i] != lit.negated());
            assert(d[i].var() != lit.var());
        }
        if clause_holds(d, a) {
            let i = choose|i: int| 0 <= i < d.len() && #[trigger] literal_holds(d[i], a);
            assert(literal_holds(d[i], other));
        }
        if clause_holds(d, other) {
            let i = choose|i: int| 0 <= i < d.len() && #[trigger] literal_holds(d[i], other);
            assert(literal_holds(d[i], a));
        }
    }
}

/// Quantifying a variable away is the disjunction of the two cofactors:
/// one of the cofactors for `x` holds under an assignment if and only if
/// the formula holds under the assignment with some value for the variable
/// of `x`.
pub proof fn lemma_exists_is_cofactor_or(cs: Seq<Seq<Literal>>, x: Literal, a: Seq<bool>)
    requires
        0 <= x.var() < a.len(),
    ensures
        (formula_holds(normalize(conditioned(cs, x)), a) || formula_holds(
            normalize(conditioned(cs, x.negated())),
            a,
        )) == (exists|b: bool| formula_holds(cs, #[trigger] a.update(x.var(), b))),
{
    let v = x.var();
    let yes = a.update(v, x.polarity);
    let no = a.update(v, !x.polarity);
    assert(x.negated().var() == v);
    assert(literal_holds(x, yes));
    assert(literal_holds(x.negated(), no));
    lemma_condition_keeps_models(cs, x, yes);
    lemma_condition_keeps_models(cs, x.negated(), no);
    lemma_normalize_holds(conditioned(cs, x), a);
    lemma_normalize_holds(conditioned(cs, x), yes);
    lemma_normalize_holds(conditioned(cs, x.negated()), a);
    lemma_normalize_holds(conditioned(cs, x.negated()), no);
    lemma_conditioned_forgets(cs, x, a, x.polarity);
    lemma_conditioned_forgets(cs, x.negated(), a, !x.polarity);
    if exists|b: bool| formula_holds(cs, #[trigger] a.update(v, b)) {
        let b = choose|b: bool| formula_holds(cs, #[trigger] a.update(v, b));
        if b == x.polarity {
            assert(a.update(v, b) == yes);
        } else {
            assert(a.update(v, b) == no);
        }
    }
}

/// The formula of the clauses of two formulas holds if and only if both
/// formulas hold: taking the clauses together is the conjunction.
pub proof fn lemma_clauses_together(c1: Seq<Seq<Literal>>, c2: Seq<Seq<Literal>>, a: Seq<bool>)
    ensures
        formula_holds(normalize(c1 + c2), a) == (formula_holds(normalize(c1), a) && formula_holds(
            normalize(c2),
            a,
        )),
{
    lemma_normalize_holds(c1 + c2, a);
    lemma_normalize_holds(c1, a);
    lemma_normalize_holds(c2, a);
    let both = c1 + c2;
    if formula_holds(both, a) {
        assert forall|k: int| 0 <= k < c1.len() implies clause_holds(#[trigger] c1[k], a) by {
            assert(both[k] == c1[k]);
        }
        assert forall|k: int| 0 <= k < c2.len() implies clause_holds(#[trigger] c2[k], a) by {
            assert(both[c1.len() + k] == c2[k]);
        }
    }
    if formula_holds(c1, a) && formula_holds(c2, a) {
        assert forall|k: int| 0 <= k < both.len() implies clause_holds(#[trigger] both[k], a) by {
            if k < c1.len() {
                assert(both[k] == c1[k]);
            } else {
                assert(both[k] == c2[k - c1.len()]);
            }
        }
    }
}

} // verus!
