//! Formulas in conjunctive normal form.

use crate::repr::clause::{
    clause_normal, dedup_clause, lemma_normalize_clause, normalize_clause, sort_clause,
};
use crate::repr::var_label::{Literal, VarLabel};
use crate::repr::var_order::VarOrder;
use vstd::prelude::*;

verus! {

/// The clauses that a vector of literal vectors holds.
pub open spec fn clause_seqs(v: Seq<Vec<Literal>>) -> Seq<Seq<Literal>> {
    Seq::new(v.len(), |k: int| v[k]@)
}

/// The total assignment `a` makes some literal of the clause true.
pub open spec fn clause_holds(c: Seq<Literal>, a: Seq<bool>) -> bool {
    exists|i: int| 0 <= i < c.len() && #[trigger] literal_holds(c[i], a)
}

/// The total assignment `a` makes the literal true.
pub open spec fn literal_holds(l: Literal, a: Seq<bool>) -> bool {
    0 <= l.var() < a.len() && a[l.var()] == l.polarity
}

/// The total assignment `a` makes every clause true.
pub open spec fn formula_holds(cs: Seq<Seq<Literal>>, a: Seq<bool>) -> bool {
    forall|k: int| 0 <= k < cs.len() ==> clause_holds(#[trigger] cs[k], a)
}

/// Every variable that occurs has a number below `n`.
pub open spec fn labels_below(cs: Seq<Seq<Literal>>, n: int) -> bool {
    forall|k: int, i: int|
        0 <= k < cs.len() && 0 <= i < cs[k].len() ==> (#[trigger] cs[k][i]).label.0 < n
}

/// One more than the largest variable number in the clause; 0 for the empty
/// clause.
pub open spec fn clause_var_bound(c: Seq<Literal>) -> nat
    decreases c.len(),
{
    if c.len() == 0 {
        0
    } else {
        let rest = clause_var_bound(c.drop_last());
        if rest > c.last().label.0 {
            rest
        } else {
            (c.last().label.0 + 1) as nat
        }
    }
}

/// One more than the largest variable number in the clauses; 0 if no
/// variable occurs.
pub open spec fn var_bound(cs: Seq<Seq<Literal>>) -> nat
    decreases cs.len(),
{
    if cs.len() == 0 {
        0
    } else {
        let rest = var_bound(cs.drop_last());
        let here = clause_var_bound(cs.last());
        if rest > here {
            rest
        } else {
            here
        }
    }
}

/// The clauses of `cs`, each in normal form, in the order of `cs`. An
/// empty clause stays: it makes the formula false.
pub open spec fn normalize(cs: Seq<Seq<Literal>>) -> Seq<Seq<Literal>>
    decreases cs.len(),
{
    if cs.len() == 0 {
        cs
    } else {
        normalize(cs.drop_last()).push(normalize_clause(cs.last()))
    }
}

/// One of the clauses is empty.
pub open spec fn some_empty(cs: Seq<Seq<Literal>>) -> bool {
    exists|k: int| 0 <= k < cs.len() && (#[trigger] cs[k]).len() == 0
}

/// The clause without the occurrences of `l`.
pub open spec fn without_literal(c: Seq<Literal>, l: Literal) -> Seq<Literal>
    decreases c.len(),
{
    if c.len() == 0 {
        c
    } else if c.last() == l {
        without_literal(c.drop_last(), l)
    } else {
        without_literal(c.drop_last(), l).push(c.last())
    }
}

/// What is left of the clauses once `lit` is known to be true: the clauses
/// that hold `lit` are gone, and the others have lost the negation of `lit`.
pub open spec fn conditioned(cs: Seq<Seq<Literal>>, lit: Literal) -> Seq<Seq<Literal>>
    decreases cs.len(),
{
    if cs.len() == 0 {
        cs
    } else if cs.last().contains(lit) {
        conditioned(cs.drop_last(), lit)
    } else {
        conditioned(cs.drop_last(), lit).push(without_literal(cs.last(), lit.negated()))
    }
}

/// The bound of a clause lies above each of its variables, and is the least
/// number that does.
pub proof fn lemma_clause_var_bound(c: Seq<Literal>)
    ensures
        forall|i: int| 0 <= i < c.len() ==> (#[trigger] c[i]).label.0 < clause_var_bound(c),
        clause_var_bound(c) == 0 <==> c.len() == 0,
        clause_var_bound(c) > 0 ==> exists|i: int|
            0 <= i < c.len() && (#[trigger] c[i]).label.0 + 1 == clause_var_bound(c),
    decreases c.len(),
{
    if c.len() > 0 {
        let t = c.drop_last();
        lemma_clause_var_bound(t);
        assert forall|i: int| 0 <= i < c.len() implies (#[trigger] c[i]).label.0
            < clause_var_bound(c) by {
            if i < t.len() {
                assert(t[i] == c[i]);
            }
        }
        if clause_var_bound(t) > c.last().label.0 {
            let i = choose|i: int|
                0 <= i < t.len() && (#[trigger] t[i]).label.0 + 1 == clause_var_bound(t);
            assert(c[i].label.0 + 1 == clause_var_bound(c));
        } else {
            assert(c[c.len() - 1].label.0 + 1 == clause_var_bound(c));
        }
    }
}

/// The bound of a formula lies above each of its variables, and is the least
/// number that does.
pub proof fn lemma_var_bound(cs: Seq<Seq<Literal>>)
    ensures
        labels_below(cs, var_bound(cs) as int),
        var_bound(cs) > 0 ==> exists|k: int, i: int|
            0 <= k < cs.len() && 0 <= i < cs[k].len() && (#[trigger] cs[k][i]).label.0 + 1
                == var_bound(cs),
    decreases cs.len(),
{
    if cs.len() > 0 {
        let t = cs.drop_last();
        lemma_var_bound(t);
        lemma_clause_var_bound(cs.last());
        assert forall|k: int, i: int| 0 <= k < cs.len() && 0 <= i < cs[k].len() implies (
        #[trigger] cs[k][i]).label.0 < var_bound(cs) by {
            if k < t.len() {
                assert(t[k][i] == cs[k][i]);
            }
        }
        if var_bound(cs) > 0 {
            if var_bound(t) > clause_var_bound(cs.last()) {
                let (k, i) = choose|k: int, i: int|
                    0 <= k < t.len() && 0 <= i < t[k].len() && (#[trigger] t[k][i]).label.0 + 1
                        == var_bound(t);
                assert(cs[k][i].label.0 + 1 == var_bound(cs));
            } else {
                let c = cs.last();
                let i = choose|i: int|
                    0 <= i < c.len() && (#[trigger] c[i]).label.0 + 1 == clause_var_bound(c);
                assert(cs[cs.len() - 1][i].label.0 + 1 == var_bound(cs));
            }
        }
    }
}

/// Removing a literal keeps the others, in their order.
pub proof fn lemma_without_literal(c: Seq<Literal>, l: Literal)
    ensures
        without_literal(c, l).len() <= c.len(),
        forall|x: Literal| #[trigger]
            without_literal(c, l).contains(x) <==> (c.contains(x) && x != l),
    decreases c.len(),
{
    if c.len() > 0 {
        let t = c.drop_last();
        let wt = without_literal(t, l);
        let w = without_literal(c, l);
        lemma_without_literal(t, l);
        assert forall|x: Literal| #[trigger] w.contains(x) <==> (c.contains(x) && x != l) by {
            if w.contains(x) {
                let i = choose|i: int| 0 <= i < w.len() && w[i] == x;
                if i < wt.len() {
                    assert(wt[i] == x);
                    assert(wt.contains(x));
                    let j = choose|j: int| 0 <= j < t.len() && t[j] == x;
                    assert(c[j] == x);
                } else {
                    assert(c[c.len() - 1] == x);
                }
            }
            if c.contains(x) && x != l {
                let j = choose|j: int| 0 <= j < c.len() && c[j] == x;
                if j < t.len() {
                    assert(t[j] == x);
                    assert(t.contains(x));
                    assert(wt.contains(x));
                    let i = choose|i: int| 0 <= i < wt.len() && wt[i] == x;
                    assert(w[i] == x);
                } else {
                    assert(w[w.len() - 1] == x);
                }
            }
        }
    }
}

/// The normal form holds the normal form of each clause, in the same
/// place.
pub proof fn lemma_normalize_each(cs: Seq<Seq<Literal>>)
    ensures
        normalize(cs).len() == cs.len(),
        forall|k: int| 0 <= k < cs.len() ==> #[trigger] normalize(cs)[k] == normalize_clause(cs[k]),
    decreases cs.len(),
{
    if cs.len() > 0 {
        let t = cs.drop_last();
        lemma_normalize_each(t);
        assert(cs.last() == cs[cs.len() - 1]);
        assert forall|k: int| 0 <= k < cs.len() implies #[trigger] normalize(cs)[k]
            == normalize_clause(cs[k]) by {
            if k < t.len() {
                assert(normalize(cs)[k] == normalize(t)[k]);
                assert(t[k] == cs[k]);
            }
        }
    }
}

/// The normal form has an empty clause where the clauses have one, and
/// only there.
pub proof fn lemma_normalize_empty(cs: Seq<Seq<Literal>>)
    ensures
        some_empty(normalize(cs)) == some_empty(cs),
{
    lemma_normalize_each(cs);
    let n = normalize(cs);
    assert forall|k: int| 0 <= k < cs.len() implies ((#[trigger] n[k]).len() == 0) == (cs[k].len()
        == 0) by {
        lemma_normalize_clause(cs[k]);
        if cs[k].len() > 0 {
            assert(cs[k].contains(cs[k][0]));
            assert(n[k].contains(cs[k][0]));
        }
        if n[k].len() > 0 {
            assert(n[k].contains(n[k][0]));
            assert(cs[k].contains(n[k][0]));
        }
    }
    if some_empty(cs) {
        let k = choose|k: int| 0 <= k < cs.len() && (#[trigger] cs[k]).len() == 0;
        assert(n[k].len() == 0);
    }
    if some_empty(n) {
        let k = choose|k: int| 0 <= k < n.len() && (#[trigger] n[k]).len() == 0;
        assert(cs[k].len() == 0);
    }
}

/// A formula with an empty clause holds under no assignment.
pub proof fn lemma_empty_clause_unsat(cs: Seq<Seq<Literal>>, a: Seq<bool>)
    requires
        some_empty(cs),
    ensures
        !formula_holds(cs, a),
{
    let k = choose|k: int| 0 <= k < cs.len() && (#[trigger] cs[k]).len() == 0;
    assert(!clause_holds(cs[k], a));
}

/// A formula in conjunctive normal form: a conjunction of clauses, each a
/// disjunction of literals.
#[derive(Debug, Clone, Eq, PartialEq, Hash)]
pub struct Cnf {
    clauses: Vec<Vec<Literal>>,
    num_vars: usize,
}

impl View for Cnf {
    type V = Seq<Seq<Literal>>;

    closed spec fn view(&self) -> Seq<Seq<Literal>> {
        clause_seqs(self.clauses@)
    }
}

impl Cnf {
    /// The number of variables of the formula.
    pub closed spec fn spec_num_vars(&self) -> usize {
        self.num_vars
    }

    /// The invariant of a formula: every clause is in normal form, and the
    /// number of variables is one more than the largest variable number
    /// that occurs.
    pub open spec fn wf(&self) -> bool {
        &&& forall|k: int| 0 <= k < self@.len() ==> clause_normal(#[trigger] self@[k])
        &&& labels_below(self@, self.spec_num_vars() as int)
        &&& self.spec_num_vars() == var_bound(self@)
    }

    #[verifier::when_used_as_spec(spec_num_vars)]
    pub fn num_vars(&self) -> (r: usize)
        ensures
            r == self.spec_num_vars(),
    {
        self.num_vars
    }

    pub fn clauses(&self) -> (r: &[Vec<Literal>])
        ensures
            clause_seqs(r@) == self@,
    {
        self.clauses.as_slice()
    }

    /// Whether one of the clauses is empty, so that no assignment makes the
    /// formula true.
    pub fn has_empty_clause(&self) -> (r: bool)
        ensures
            r == some_empty(self@),
    {
        let mut k: usize = 0;
        while k < self.clauses.len()
            invariant
                k <= self.clauses.len(),
                forall|j: int| 0 <= j < k ==> (#[trigger] self@[j]).len() > 0,
            decreases self.clauses.len() - k,
        {
            if self.clauses[k].len() == 0 {
                assert(self@[k as int].len() == 0);
                return true;
            }
            k += 1;
        }
        false
    }

    /// The formula made of the given clauses, each put in normal form. An
    /// empty clause stays, and makes the formula false.
    pub fn new(clauses: Vec<Vec<Literal>>) -> (r: Cnf)
        requires
            labels_below(clause_seqs(clauses@), usize::MAX as int),
        ensures
            r.wf(),
            r@ == normalize(clause_seqs(clauses@)),
            some_empty(r@) == some_empty(clause_seqs(clauses@)),
    {
        let ghost given = clause_seqs(clauses@);
        proof {
            lemma_normalize_empty(given);
        }
        let mut m: usize = 0;
        let mut kept: Vec<Vec<Literal>> = Vec::new();
        let mut k: usize = 0;
        while k < clauses.len()
            invariant
                k <= clauses.len(),
                given == clause_seqs(clauses@),
                labels_below(given, usize::MAX as int),
                clause_seqs(kept@) == normalize(given.take(k as int)),
                m == var_bound(clause_seqs(kept@)),
                forall|j: int| 0 <= j < kept@.len() ==> clause_normal((#[trigger] kept@[j])@),
            decreases clauses.len() - k,
        {
            let c = &clauses[k];
            proof {
                assert(given.take(k + 1).drop_last() =~= given.take(k as int));
                assert(given.take(k + 1).last() == c@);
            }
            {
                let sorted = sort_clause(c);
                let normal = dedup_clause(&sorted);
                proof {
                    lemma_normalize_clause(c@);
                    assert forall|i: int| 0 <= i < normal@.len() implies (
                    #[trigger] normal@[i]).label.0 < usize::MAX by {
                        assert(normal@.contains(normal@[i]));
                        assert(c@.contains(normal@[i]));
                        let j = choose|j: int| 0 <= j < c@.len() && c@[j] == normal@[i];
                        assert(given[k as int][j] == normal@[i]);
                    }
                }
                let mut i: usize = 0;
                let ghost before = m;
                while i < normal.len()
                    invariant
                        i <= normal.len(),
                        forall|j: int|
                            0 <= j < normal@.len() ==> (#[trigger] normal@[j]).label.0
                                < usize::MAX,
                        m == (if before > clause_var_bound(normal@.take(i as int)) {
                            before as nat
                        } else {
                            clause_var_bound(normal@.take(i as int))
                        }),
                    decreases normal.len() - i,
                {
                    proof {
                        assert(normal@.take(i + 1).drop_last() =~= normal@.take(i as int));
                    }
                    let next = normal[i].label.0 + 1;
                    if next > m as u64 {
                        m = next as usize;
                    }
                    i += 1;
                }
                proof {
                    assert(normal@.take(normal.len() as int) =~= normal@);
                    assert(clause_seqs(kept@.push(normal)) =~= clause_seqs(kept@).push(normal@));
                    assert(clause_seqs(kept@).push(normal@).drop_last() =~= clause_seqs(kept@));
                }
                kept.push(normal);
            }
            k += 1;
        }
        proof {
            assert(given.take(clauses.len() as int) =~= given);
            lemma_var_bound(clause_seqs(kept@));
        }
        Cnf { clauses: kept, num_vars: m }
    }

    /// Whether a total assignment makes the formula true; `assignment[v]` is
    /// the value of the variable numbered `v`.
    pub fn eval(&self, assignment: &Vec<bool>) -> (r: bool)
        requires
            self.wf(),
            assignment@.len() >= self.spec_num_vars(),
        ensures
            r == formula_holds(self@, assignment@),
            some_empty(self@) ==> !r,
    {
        proof {
            if some_empty(self@) {
                lemma_empty_clause_unsat(self@, assignment@);
            }
        }
        let mut k: usize = 0;
        while k < self.clauses.len()
            invariant
                k <= self.clauses.len(),
                self.wf(),
                assignment@.len() >= self.spec_num_vars(),
                forall|j: int| 0 <= j < k ==> clause_holds(#[trigger] self@[j], assignment@),
            decreases self.clauses.len() - k,
        {
            let clause = &self.clauses[k];
            let mut clause_sat = false;
            let mut i: usize = 0;
            while i < clause.len()
                invariant
                    i <= clause.len(),
                    clause@ == self@[k as int],
                    0 <= k < self@.len(),
                    labels_below(self@, self.spec_num_vars() as int),
                    assignment@.len() >= self.spec_num_vars(),
                    clause_sat <==> exists|j: int|
                        0 <= j < i && #[trigger] literal_holds(clause@[j], assignment@),
                decreases clause.len() - i,
            {
                let lit = clause[i];
                assert(self@[k as int][i as int].label.0 < self.spec_num_vars());
                let assgn = assignment[lit.label.0 as usize];
                if lit.polarity == assgn {
                    clause_sat = true;
                    assert(literal_holds(clause@[i as int], assignment@));
                }
                i += 1;
            }
            if !clause_sat {
                assert(!clause_holds(self@[k as int], assignment@));
                return false;
            }
            k += 1;
        }
        true
    }

    /// The variables in the order of their numbers.
    pub fn linear_order(&self) -> (r: VarOrder)
        ensures
            r@ == Seq::new(self.spec_num_vars() as nat, |v: int| VarLabel(v as u64)),
            r.is_permutation(),
    {
        let mut v: Vec<VarLabel> = Vec::new();
        let mut x: usize = 0;
        while x < self.num_vars
            invariant
                x <= self.num_vars,
                v@ == Seq::new(x as nat, |v: int| VarLabel(v as u64)),
            decreases self.num_vars - x,
        {
            v.push(VarLabel::new(x as u64));
            assert(v@ =~= Seq::new((x + 1) as nat, |v: int| VarLabel(v as u64)));
            x += 1;
        }
        VarOrder::new(v)
    }

    /// The formula that is left once `lit` is known to be true.
    pub fn condition(&mut self, lit: Literal) -> (r: Cnf)
        requires
            old(self).wf(),
        ensures
            *final(self) == *old(self),
            r.wf(),
            r@ == normalize(conditioned(old(self)@, lit)),
    {
        let ghost given = self@;
        let mut new_cnf: Vec<Vec<Literal>> = Vec::new();
        let mut k: usize = 0;
        while k < self.clauses.len()
            invariant
                k <= self.clauses.len(),
                given == self@,
                labels_below(given, usize::MAX as int),
                clause_seqs(new_cnf@) == conditioned(given.take(k as int), lit),
                labels_below(clause_seqs(new_cnf@), usize::MAX as int),
            decreases self.clauses.len() - k,
        {
            let clause = &self.clauses[k];
            proof {
                assert(given.take(k + 1).drop_last() =~= given.take(k as int));
                assert(given.take(k + 1).last() == clause@);
            }
            let mut found = false;
            let mut i: usize = 0;
            while i < clause.len()
                invariant
                    i <= clause.len(),
                    found <==> clause@.take(i as int).contains(lit),
                decreases clause.len() - i,
            {
                if clause[i].label.0 == lit.label.0 && clause[i].polarity == lit.polarity {
                    found = true;
                }
                proof {
                    let a = clause@.take(i as int);
                    let b = clause@.take(i + 1);
                    assert(b[i as int] == clause@[i as int]);
                    if a.contains(lit) {
                        let j = choose|j: int| 0 <= j < a.len() && a[j] == lit;
                        assert(b[j] == lit);
                    }
                    if b.contains(lit) && clause@[i as int] != lit {
                        let j = choose|j: int| 0 <= j < b.len() && b[j] == lit;
                        assert(a[j] == lit);
                    }
                }
                i += 1;
            }
            proof {
                assert(clause@.take(clause.len() as int) =~= clause@);
            }
            if !found {
                let mut filtered: Vec<Literal> = Vec::new();
                let mut i: usize = 0;
                while i < clause.len()
                    invariant
                        i <= clause.len(),
                        filtered@ == without_literal(clause@.take(i as int), lit.negated()),
                    decreases clause.len() - i,
                {
                    proof {
                        assert(clause@.take(i + 1).drop_last() =~= clause@.take(i as int));
                    }
                    let outer = clause[i];
                    if !(lit.label.0 == outer.label.0 && lit.polarity != outer.polarity) {
                        filtered.push(outer);
                    }
                    i += 1;
                }
                proof {
                    lemma_without_literal(clause@, lit.negated());
                    let old_seqs = clause_seqs(new_cnf@);
                    let new_seqs = clause_seqs(new_cnf@.push(filtered));
                    assert(new_seqs =~= old_seqs.push(filtered@));
                    assert forall|j: int, i: int|
                        0 <= j < new_seqs.len() && 0 <= i < new_seqs[j].len() implies (
                    #[trigger] new_seqs[j][i]).label.0 < usize::MAX by {
                        if j < old_seqs.len() {
                            assert(old_seqs[j][i] == new_seqs[j][i]);
                        } else {
                            assert(filtered@.contains(filtered@[i]));
                            assert(clause@.contains(filtered@[i]));
                            let x = choose|x: int| 0 <= x < clause@.len() && clause@[x] == filtered@[i];
                            assert(given[k as int][x] == filtered@[i]);
                        }
                    }
                }
                new_cnf.push(filtered);
            }
            k += 1;
        }
        proof {
            assert(given.take(self.clauses.len() as int) =~= given);
        }
        Cnf::new(new_cnf)
    }
}

} // verus!
